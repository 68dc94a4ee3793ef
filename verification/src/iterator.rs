//! The user iterator: a snapshot of the index joined with on-demand value
//! reads from the log.  Keys come in lexicographic order, ascending or
//! descending, filtered by prefix; each yielded key carries the value its
//! latest committed record holds.

use vstd::prelude::*;

use crate::db::Engine;
use crate::error::Error;
use crate::fio::IOManager;
use crate::index::btree::BTreeIterator;
use crate::index::lemma_remaining_matches_members;
use crate::index::remaining_matches;
use crate::index::seek_position;
use crate::index::IndexInterator;
use crate::data::log_record::LogRecordPos;
use crate::options::IteratorOptions;
use crate::recovery::file_at;
use crate::recovery::lemma_replay_ok;
use crate::keymap::pairs_contain;

verus! {

/// A snapshot iterator over an engine's live keys.
pub struct Iterator {
    index_iter: BTreeIterator,
}

impl<IO: IOManager> Engine<IO> {
    /// A snapshot iterator over the live keys under these options.  The
    /// snapshot holds every live key once, in ascending key order, or
    /// descending when the options say so.
    pub fn iter(&self, options: IteratorOptions) -> (r: Iterator)
        requires
            self.wf(),
        ensures
            r.cursor() == 0,
            r.prefix() == options.prefix@,
            r.reverse() == options.reverse,
            crate::keymap::keys_strictly_ascending(self.index_pairs()),
            !options.reverse ==> r.items() == self.index_pairs(),
            options.reverse ==> r.items().len() == self.index_pairs().len()
                && (forall|i: int| 0 <= i < self.index_pairs().len()
                    ==> #[trigger] r.items()[i]
                        == self.index_pairs()[self.index_pairs().len() - 1 - i]),
            !options.reverse ==> crate::keymap::keys_strictly_ascending(r.items()),
            options.reverse ==> crate::index::keys_strictly_descending(r.items()),
            forall|t: int| 0 <= t < r.items().len()
                ==> self.kv().contains_key((#[trigger] r.items()[t]).0)
                    && self.index_map().contains_key(r.items()[t].0)
                    && self.index_map()[r.items()[t].0] == r.items()[t].1,
            forall|k: Seq<u8>| #[trigger] self.kv().contains_key(k)
                ==> pairs_contain(r.items(), k),
    {
        Iterator { index_iter: self.index_iterator(options) }
    }
}

impl Iterator {
    /// The snapshot, in iteration order.
    pub closed spec fn items(&self) -> Seq<(Seq<u8>, LogRecordPos)> {
        self.index_iter.items()
    }

    /// The current position in the snapshot.
    pub closed spec fn cursor(&self) -> int {
        self.index_iter.cursor()
    }

    /// The key prefix the iteration is filtered by.
    pub closed spec fn prefix(&self) -> Seq<u8> {
        self.index_iter.prefix()
    }

    /// Whether the snapshot is in descending key order.
    pub closed spec fn reverse(&self) -> bool {
        self.index_iter.reverse()
    }

    /// Go back to the start of the snapshot.
    pub fn rewind(&mut self)
        ensures
            final(self).items() == old(self).items(),
            final(self).prefix() == old(self).prefix(),
            final(self).reverse() == old(self).reverse(),
            final(self).cursor() == 0,
    {
        self.index_iter.rewind();
    }

    /// Move to the first key at or past `key` in iteration order: the
    /// least key at or above it going forward, the greatest key at or
    /// below it in reverse.
    pub fn seek(&mut self, key: Vec<u8>)
        ensures
            final(self).items() == old(self).items(),
            final(self).prefix() == old(self).prefix(),
            final(self).reverse() == old(self).reverse(),
            final(self).cursor() == seek_position(old(self).items(), key@,
                old(self).reverse(), 0),
    {
        self.index_iter.seek(key);
    }

    /// The next key starting with the prefix, with the value its latest
    /// committed record holds, read from the engine's log.
    pub fn next<IO: IOManager>(&mut self, engine: &Engine<IO>) -> (r: Result<
        Option<(Vec<u8>, Vec<u8>)>,
        Error,
    >)
        requires
            engine.wf(),
            forall|t: int| 0 <= t < old(self).items().len()
                ==> engine.index_map().contains_key((#[trigger] old(self).items()[t]).0)
                    && engine.index_map()[old(self).items()[t].0]
                        == old(self).items()[t].1,
        ensures
            final(self).items() == old(self).items(),
            final(self).prefix() == old(self).prefix(),
            final(self).reverse() == old(self).reverse(),
            remaining_matches(old(self).items(), old(self).prefix(),
                old(self).cursor()).len() == 0 ==> (r matches Ok(o) && o is None),
            match r {
                Ok(Some((k, v))) => {
                    &&& remaining_matches(old(self).items(), old(self).prefix(),
                        old(self).cursor()).len() > 0
                    &&& k@ == remaining_matches(old(self).items(), old(self).prefix(),
                        old(self).cursor())[0].0
                    &&& engine.kv().contains_key(k@)
                    &&& v@ == engine.kv()[k@]
                    &&& remaining_matches(final(self).items(), final(self).prefix(),
                        final(self).cursor())
                        == remaining_matches(old(self).items(), old(self).prefix(),
                            old(self).cursor()).drop_first()
                },
                Ok(None) => {
                    &&& remaining_matches(old(self).items(), old(self).prefix(),
                        old(self).cursor()).len() == 0
                    &&& remaining_matches(final(self).items(), final(self).prefix(),
                        final(self).cursor()).len() == 0
                },
                Err(e) => {
                    ||| e == Error::FailedToReadFromDataFile
                    ||| (e == Error::DirectoryCorrupted
                        && (usize::MAX as int) < 0x10_0000_000f)
                },
            },
    {
        let ghost its = self.items();
        let ghost pfx = self.prefix();
        let ghost cur = self.cursor();
        match self.index_iter.next() {
            None => Ok(None),
            Some((key, pos)) => {
                proof {
                    lemma_remaining_matches_members(its, pfx, cur);
                    let rem = remaining_matches(its, pfx, cur);
                    assert((key@, pos) == rem[0]);
                    let j = choose|j: int| cur <= j < its.len() && its[j] == rem[0]
                        && crate::keys::has_prefix(rem[0].0, pfx);
                    assert(engine.index_map().contains_key(its[j].0));
                    assert(engine.index_map().contains_key(key@));
                    assert(engine.index_map()[key@] == pos);
                    assert(engine.end_state().idx.contains_key(key@));
                    assert(pos == engine.end_state().idx[key@].pos);
                    engine.lemma_wf_replay();
                    lemma_replay_ok(engine.views());
                    assert(crate::recovery::entry_ok(engine.views(),
                        engine.end_state().idx[key@]));
                }
                let ghost entry = engine.end_state().idx[key@];
                match engine.get_value_by_position(&pos) {
                    Ok(v) => {
                        proof {
                            assert(v@ == entry.value);
                            assert(engine.kv()[key@] == entry.value);
                        }
                        Ok(Some((key, v)))
                    },
                    Err(e) => {
                        proof {
                            if e == Error::DirectoryCorrupted {
                                let c = file_at(engine.views(), pos.file_id);
                                let o = pos.offset as int;
                                crate::varint::lemma_parse_varint5(c, o + 1);
                                let n1 = crate::varint::parse_varint(c, o + 1, 5)
                                    ->Some_0.1;
                                crate::varint::lemma_parse_varint5(c, o + 1 + n1 as int);
                            }
                        }
                        Err(e)
                    },
                }
            },
        }
    }
}

impl Iterator {
    /// Walk the remaining keys in iteration order, handing each key and
    /// its current value to `f`, and stop as soon as `f` returns false.
    /// Each pair handed over is a live pair of the engine, per `next`;
    /// what `f` makes of them is `f`'s own business, so the contract pins
    /// only the outcomes the iterator itself decides.
    pub fn fold<IO: IOManager, F: Fn(Vec<u8>, Vec<u8>) -> bool>(
        &mut self,
        engine: &Engine<IO>,
        f: F,
    ) -> (r: Result<(), Error>)
        requires
            engine.wf(),
            forall|t: int| 0 <= t < old(self).items().len()
                ==> engine.index_map().contains_key((#[trigger] old(self).items()[t]).0)
                    && engine.index_map()[old(self).items()[t].0]
                        == old(self).items()[t].1,
            forall|k: Vec<u8>, v: Vec<u8>|
                engine.kv().contains_key(k@) && v@ == engine.kv()[k@]
                    ==> #[trigger] call_requires(f, (k, v)),
        ensures
            final(self).items() == old(self).items(),
            final(self).prefix() == old(self).prefix(),
            final(self).reverse() == old(self).reverse(),
            remaining_matches(old(self).items(), old(self).prefix(),
                old(self).cursor()).len() == 0 ==> r is Ok,
            r is Ok ==> remaining_matches(final(self).items(), final(self).prefix(),
                final(self).cursor()).len() == 0
                || (exists|k: Vec<u8>, v: Vec<u8>| call_ensures(f, (k, v), false)),
            r matches Err(e) ==> {
                ||| e == Error::FailedToReadFromDataFile
                ||| (e == Error::DirectoryCorrupted && (usize::MAX as int) < 0x10_0000_000f)
            },
    {
        loop
            invariant
                engine.wf(),
                self.items() == old(self).items(),
                self.prefix() == old(self).prefix(),
                self.reverse() == old(self).reverse(),
                forall|t: int| 0 <= t < self.items().len()
                    ==> engine.index_map().contains_key((#[trigger] self.items()[t]).0)
                        && engine.index_map()[self.items()[t].0] == self.items()[t].1,
                forall|k: Vec<u8>, v: Vec<u8>|
                    engine.kv().contains_key(k@) && v@ == engine.kv()[k@]
                        ==> #[trigger] call_requires(f, (k, v)),
                remaining_matches(self.items(), self.prefix(), self.cursor()).len()
                    <= remaining_matches(old(self).items(), old(self).prefix(),
                        old(self).cursor()).len(),
            decreases remaining_matches(self.items(), self.prefix(), self.cursor()).len(),
        {
            match self.next(engine) {
                Ok(None) => {
                    return Ok(());
                },
                Ok(Some((key, value))) => {
                    let keep_going = f(key, value);
                    if !keep_going {
                        return Ok(());
                    }
                },
                Err(e) => {
                    return Err(e);
                },
            }
        }
    }
}

} // verus!
