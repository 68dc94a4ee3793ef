//! The in-memory index: an ordered mapping from user key to the location
//! of the key's latest committed record, with snapshot iteration.  Any
//! ordered associative structure can stand behind these interfaces.

pub mod btree;

use vstd::prelude::*;

use crate::data::log_record::LogRecordPos;
use crate::index::btree::BTree;
use crate::keys::has_prefix;
use crate::keys::lex_lt;
use crate::options::IndexType;

verus! {

/// An index backend.
pub trait Indexer: Sized {
    /// The mapping held.
    spec fn mapping(&self) -> Map<Seq<u8>, LogRecordPos>;

    /// Store the location for a key, replacing what was there; the result
    /// says whether an entry previously existed.
    fn put(&mut self, key: Vec<u8>, pos: LogRecordPos) -> (existed: bool)
        ensures
            final(self).mapping() == old(self).mapping().insert(key@, pos),
            existed == old(self).mapping().contains_key(key@),
    ;

    /// The location stored for a key.
    fn get(&self, key: Vec<u8>) -> (r: Option<LogRecordPos>)
        ensures
            match r {
                Some(pos) => self.mapping().contains_key(key@)
                    && pos == self.mapping()[key@],
                None => !self.mapping().contains_key(key@),
            },
    ;

    /// Remove a key; the result says whether an entry existed.
    fn delete(&mut self, key: Vec<u8>) -> (existed: bool)
        ensures
            final(self).mapping() == old(self).mapping().remove(key@),
            existed == old(self).mapping().contains_key(key@),
    ;
}

/// The index backend that `index_type` selects.  The skip-list variant is
/// a declared future option with no backend yet, so only the ordered tree
/// may be asked for.
pub fn new_indexer(index_type: IndexType) -> (r: BTree)
    requires
        index_type == IndexType::BTree,
    ensures
        r.mapping() == Map::<Seq<u8>, LogRecordPos>::empty(),
        r.pairs() == Seq::<(Seq<u8>, LogRecordPos)>::empty(),
{
    BTree::new()
}

/// A key cut down to the first `n` bytes.
pub open spec fn key_trunc(k: Seq<u8>, n: int) -> Seq<u8> {
    if n < k.len() {
        k.take(n)
    } else {
        k
    }
}

/// Whether, seeking `key`, the iteration may stop on an item key `k`:
/// forward iteration stops at the first key at or above the target;
/// reverse iteration at the first key at or below it, where a key that
/// extends the target counts as at it — so that a reverse seek of a
/// prefix starts above every key carrying that prefix.
pub open spec fn seek_keeps(k: Seq<u8>, key: Seq<u8>, reverse: bool) -> bool {
    if reverse {
        !lex_lt(key, key_trunc(k, key.len() as int))
    } else {
        !lex_lt(k, key)
    }
}

/// The first position at or after `cur` where the iteration may stop when
/// seeking `key`; the end if there is none.
pub open spec fn seek_position(
    items: Seq<(Seq<u8>, LogRecordPos)>,
    key: Seq<u8>,
    reverse: bool,
    cur: int,
) -> int
    decreases items.len() - cur,
{
    if cur < 0 || cur >= items.len() {
        items.len() as int
    } else if seek_keeps(items[cur].0, key, reverse) {
        cur
    } else {
        seek_position(items, key, reverse, cur + 1)
    }
}

/// The items an iterator standing at `cur` still has to yield: those from
/// `cur` on whose keys start with the prefix.
pub open spec fn remaining_matches(
    items: Seq<(Seq<u8>, LogRecordPos)>,
    prefix: Seq<u8>,
    cur: int,
) -> Seq<(Seq<u8>, LogRecordPos)>
    decreases items.len() - cur,
{
    if cur < 0 || cur >= items.len() {
        Seq::empty()
    } else if has_prefix(items[cur].0, prefix) {
        seq![items[cur]] + remaining_matches(items, prefix, cur + 1)
    } else {
        remaining_matches(items, prefix, cur + 1)
    }
}

/// Keys strictly descending along the items, as a reverse iterator holds
/// them.
pub open spec fn keys_strictly_descending(ps: Seq<(Seq<u8>, LogRecordPos)>) -> bool {
    forall|i: int, j: int| 0 <= i < j < ps.len()
        ==> lex_lt((#[trigger] ps[j]).0, (#[trigger] ps[i]).0)
}

/// Every item an iterator yields is an entry of its snapshot at or past
/// the cursor, and its key starts with the prefix: the first half of
/// prefix filtering.
pub proof fn lemma_remaining_matches_members(
    items: Seq<(Seq<u8>, LogRecordPos)>,
    prefix: Seq<u8>,
    cur: int,
)
    ensures
        forall|t: int| 0 <= t < remaining_matches(items, prefix, cur).len()
            ==> exists|j: int| cur <= j < items.len()
                && items[j] == #[trigger] remaining_matches(items, prefix, cur)[t]
                && has_prefix(remaining_matches(items, prefix, cur)[t].0, prefix),
    decreases items.len() - cur,
{
    let rem = remaining_matches(items, prefix, cur);
    if cur < 0 || cur >= items.len() {
    } else {
        lemma_remaining_matches_members(items, prefix, cur + 1);
        let tail = remaining_matches(items, prefix, cur + 1);
        if has_prefix(items[cur].0, prefix) {
            assert forall|t: int| 0 <= t < rem.len()
                implies exists|j: int| cur <= j < items.len()
                    && items[j] == #[trigger] rem[t]
                    && has_prefix(rem[t].0, prefix) by {
                if t == 0 {
                    assert(rem[0] == items[cur]);
                    assert(cur <= cur < items.len() && items[cur] == rem[0]
                        && has_prefix(rem[0].0, prefix));
                } else {
                    assert(rem[t] == tail[t - 1]);
                    let j = choose|j: int| cur + 1 <= j < items.len()
                        && items[j] == tail[t - 1] && has_prefix(tail[t - 1].0, prefix);
                    assert(cur <= j < items.len() && items[j] == rem[t]
                        && has_prefix(rem[t].0, prefix));
                }
            }
        } else {
            assert forall|t: int| 0 <= t < rem.len()
                implies exists|j: int| cur <= j < items.len()
                    && items[j] == #[trigger] rem[t]
                    && has_prefix(rem[t].0, prefix) by {
                assert(rem[t] == tail[t]);
                let j = choose|j: int| cur + 1 <= j < items.len()
                    && items[j] == tail[t] && has_prefix(tail[t].0, prefix);
                assert(cur <= j < items.len() && items[j] == rem[t]
                    && has_prefix(rem[t].0, prefix));
            }
        }
    }
}

/// No entry whose key starts with the prefix is skipped: the second half
/// of prefix filtering.
pub proof fn lemma_remaining_matches_complete(
    items: Seq<(Seq<u8>, LogRecordPos)>,
    prefix: Seq<u8>,
    cur: int,
)
    requires
        0 <= cur,
    ensures
        forall|j: int| cur <= j < items.len() && has_prefix((#[trigger] items[j]).0, prefix)
            ==> exists|t: int| 0 <= t < remaining_matches(items, prefix, cur).len()
                && remaining_matches(items, prefix, cur)[t] == items[j],
    decreases items.len() - cur,
{
    let rem = remaining_matches(items, prefix, cur);
    if cur < 0 || cur >= items.len() {
    } else {
        lemma_remaining_matches_complete(items, prefix, cur + 1);
        let tail = remaining_matches(items, prefix, cur + 1);
        assert forall|j: int| cur <= j < items.len()
            && has_prefix((#[trigger] items[j]).0, prefix)
            implies exists|t: int| 0 <= t < rem.len() && rem[t] == items[j] by {
            if has_prefix(items[cur].0, prefix) {
                if j == cur {
                    assert(rem[0] == items[cur]);
                } else {
                    let t = choose|t: int| 0 <= t < tail.len() && tail[t] == items[j];
                    assert(rem[t + 1] == items[j]);
                }
            } else {
                assert(j != cur);
                let t = choose|t: int| 0 <= t < tail.len() && tail[t] == items[j];
                assert(rem[t] == items[j]);
            }
        }
    }
}

/// Iterator monotonicity, forward: with the snapshot in strictly ascending
/// key order, the keys still to be yielded ascend strictly, whatever the
/// prefix.
pub proof fn lemma_remaining_matches_ascending(
    items: Seq<(Seq<u8>, LogRecordPos)>,
    prefix: Seq<u8>,
    cur: int,
)
    requires
        crate::keymap::keys_strictly_ascending(items),
    ensures
        crate::keymap::keys_strictly_ascending(remaining_matches(items, prefix, cur)),
    decreases items.len() - cur,
{
    let rem = remaining_matches(items, prefix, cur);
    if cur < 0 || cur >= items.len() {
    } else {
        lemma_remaining_matches_ascending(items, prefix, cur + 1);
        lemma_remaining_matches_members(items, prefix, cur + 1);
        let tail = remaining_matches(items, prefix, cur + 1);
        if has_prefix(items[cur].0, prefix) {
            assert forall|i: int, j: int| 0 <= i < j < rem.len()
                implies lex_lt((#[trigger] rem[i]).0, (#[trigger] rem[j]).0) by {
                if i == 0 {
                    assert(rem[j] == tail[j - 1]);
                    let q = choose|q: int| cur + 1 <= q < items.len()
                        && items[q] == tail[j - 1] && has_prefix(tail[j - 1].0, prefix);
                    assert(lex_lt(items[cur as int].0, items[q].0));
                } else {
                    assert(rem[i] == tail[i - 1] && rem[j] == tail[j - 1]);
                }
            }
        }
    }
}

/// Iterator monotonicity, reverse: with the snapshot in strictly
/// descending key order, the keys still to be yielded descend strictly.
pub proof fn lemma_remaining_matches_descending(
    items: Seq<(Seq<u8>, LogRecordPos)>,
    prefix: Seq<u8>,
    cur: int,
)
    requires
        keys_strictly_descending(items),
    ensures
        keys_strictly_descending(remaining_matches(items, prefix, cur)),
    decreases items.len() - cur,
{
    let rem = remaining_matches(items, prefix, cur);
    if cur < 0 || cur >= items.len() {
    } else {
        lemma_remaining_matches_descending(items, prefix, cur + 1);
        lemma_remaining_matches_members(items, prefix, cur + 1);
        let tail = remaining_matches(items, prefix, cur + 1);
        if has_prefix(items[cur].0, prefix) {
            assert forall|i: int, j: int| 0 <= i < j < rem.len()
                implies lex_lt((#[trigger] rem[j]).0, (#[trigger] rem[i]).0) by {
                if i == 0 {
                    assert(rem[j] == tail[j - 1]);
                    let q = choose|q: int| cur + 1 <= q < items.len()
                        && items[q] == tail[j - 1] && has_prefix(tail[j - 1].0, prefix);
                    assert(lex_lt(items[q].0, items[cur as int].0));
                } else {
                    assert(rem[i] == tail[i - 1] && rem[j] == tail[j - 1]);
                }
            }
        }
    }
}

/// One pass over a snapshot of the index.  `items` is the snapshot in
/// iteration order, `cursor` the current position in it; `next` yields the
/// head of `remaining_matches` and moves past it.
pub trait IndexInterator: Sized {
    /// The snapshot, in iteration order.
    spec fn items(&self) -> Seq<(Seq<u8>, LogRecordPos)>;

    /// The current position in the snapshot.
    spec fn cursor(&self) -> int;

    /// The key prefix the iteration is filtered by.
    spec fn prefix(&self) -> Seq<u8>;

    /// Whether the snapshot is in descending key order.
    spec fn reverse(&self) -> bool;

    /// Go back to the start of the snapshot.
    fn rewind(&mut self)
        ensures
            final(self).items() == old(self).items(),
            final(self).prefix() == old(self).prefix(),
            final(self).reverse() == old(self).reverse(),
            final(self).cursor() == 0,
    ;

    /// Move to the first item at or past the key: at the least key at or
    /// above it going forward, at the greatest key at or below it in
    /// reverse.
    fn seek(&mut self, key: Vec<u8>)
        ensures
            final(self).items() == old(self).items(),
            final(self).prefix() == old(self).prefix(),
            final(self).reverse() == old(self).reverse(),
            final(self).cursor() == seek_position(
                old(self).items(), key@, old(self).reverse(), 0),
    ;

    /// The next item whose key starts with the prefix, or `None` when none
    /// is left.
    fn next(&mut self) -> (r: Option<(Vec<u8>, LogRecordPos)>)
        ensures
            final(self).items() == old(self).items(),
            final(self).prefix() == old(self).prefix(),
            final(self).reverse() == old(self).reverse(),
            match r {
                Some(item) => {
                    &&& remaining_matches(old(self).items(), old(self).prefix(),
                        old(self).cursor()).len() > 0
                    &&& (item.0@, item.1) == remaining_matches(old(self).items(),
                        old(self).prefix(), old(self).cursor())[0]
                    &&& remaining_matches(final(self).items(), final(self).prefix(),
                        final(self).cursor())
                        == remaining_matches(old(self).items(), old(self).prefix(),
                            old(self).cursor()).drop_first()
                },
                None => {
                    &&& remaining_matches(old(self).items(), old(self).prefix(),
                        old(self).cursor()).len() == 0
                    &&& remaining_matches(final(self).items(), final(self).prefix(),
                        final(self).cursor()).len() == 0
                },
            },
    ;
}

} // verus!
