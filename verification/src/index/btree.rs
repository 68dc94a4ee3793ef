//! The ordered-tree index backend: a sorted pair vector behind the
//! `Indexer` interface, and its snapshot iterator.

use vstd::prelude::*;

use crate::data::log_record::LogRecordPos;
use crate::index::remaining_matches;
use crate::index::seek_keeps;
use crate::index::seek_position;
use crate::index::IndexInterator;
use crate::index::Indexer;
use crate::keymap::keys_strictly_ascending;
use crate::keymap::KeyMap;
use crate::keys::clone_bytes;
use crate::keys::key_compare;
use crate::keys::key_has_prefix;
use crate::keys::KeyCmp;
use crate::options::IteratorOptions;

verus! {

/// The ordered-tree index.
pub struct BTree {
    tree: KeyMap<LogRecordPos>,
}

impl BTree {
    /// The entries in ascending key order.
    pub closed spec fn pairs(&self) -> Seq<(Seq<u8>, LogRecordPos)> {
        self.tree.pairs()
    }

    /// An empty index.
    pub fn new() -> (r: Self)
        ensures
            r.mapping() == Map::<Seq<u8>, LogRecordPos>::empty(),
            r.pairs() == Seq::<(Seq<u8>, LogRecordPos)>::empty(),
    {
        BTree { tree: KeyMap::new() }
    }

    /// A snapshot iterator over the entries: ascending by key, or
    /// descending if the options say so.
    pub fn iterator(&self, options: IteratorOptions) -> (r: BTreeIterator)
        ensures
            self.mapping() == crate::keymap::pairs_as_map(self.pairs()),
            r.cursor() == 0,
            r.prefix() == options.prefix@,
            r.reverse() == options.reverse,
            keys_strictly_ascending(self.pairs()),
            !options.reverse ==> r.items() == self.pairs(),
            options.reverse ==> r.items().len() == self.pairs().len()
                && (forall|i: int| 0 <= i < self.pairs().len()
                    ==> #[trigger] r.items()[i]
                        == self.pairs()[self.pairs().len() - 1 - i]),
    {
        let n = self.tree.len();
        let mut items: Vec<(Vec<u8>, LogRecordPos)> = Vec::new();
        if !options.reverse {
            let mut i: usize = 0;
            while i < n
                invariant
                    i <= n,
                    n == self.pairs().len(),
                    items@.len() == i,
                    forall|q: int| 0 <= q < i
                        ==> ((#[trigger] items@[q]).0@, items@[q].1) == self.pairs()[q],
                decreases n - i,
            {
                let e = self.tree.entry_at(i);
                items.push((clone_bytes(&e.0), e.1));
                i = i + 1;
            }
            let ghost mapped = items@.map_values(|p: (Vec<u8>, LogRecordPos)| (p.0@, p.1));
            proof {
                assert forall|q: int| 0 <= q < n
                    implies #[trigger] mapped[q] == self.pairs()[q] by {
                    assert(mapped[q] == (items@[q].0@, items@[q].1));
                }
                assert(mapped =~= self.pairs());
            }
        } else {
            let mut i: usize = 0;
            while i < n
                invariant
                    i <= n,
                    n == self.pairs().len(),
                    items@.len() == i,
                    forall|q: int| 0 <= q < i
                        ==> ((#[trigger] items@[q]).0@, items@[q].1)
                            == self.pairs()[n - 1 - q],
                decreases n - i,
            {
                let e = self.tree.entry_at(n - 1 - i);
                items.push((clone_bytes(&e.0), e.1));
                i = i + 1;
            }
            let ghost mapped = items@.map_values(|p: (Vec<u8>, LogRecordPos)| (p.0@, p.1));
            proof {
                assert forall|q: int| 0 <= q < n
                    implies #[trigger] mapped[q] == self.pairs()[n - 1 - q] by {
                    assert(mapped[q] == (items@[q].0@, items@[q].1));
                }
            }
        }
        BTreeIterator { items, curr_idx: 0, options }
    }

    /// All keys, in ascending order.
    pub fn list_keys(&self) -> (r: Vec<Vec<u8>>)
        ensures
            self.mapping() == crate::keymap::pairs_as_map(self.pairs()),
            r@.len() == self.pairs().len(),
            forall|i: int| 0 <= i < r@.len()
                ==> (#[trigger] r@[i])@ == self.pairs()[i].0,
            keys_strictly_ascending(self.pairs()),
    {
        let n = self.tree.len();
        let mut keys: Vec<Vec<u8>> = Vec::new();
        let mut i: usize = 0;
        while i < n
            invariant
                i <= n,
                n == self.pairs().len(),
                keys@.len() == i,
                forall|q: int| 0 <= q < i ==> (#[trigger] keys@[q])@ == self.pairs()[q].0,
            decreases n - i,
        {
            let e = self.tree.entry_at(i);
            keys.push(clone_bytes(&e.0));
            i = i + 1;
        }
        keys
    }
}

impl Indexer for BTree {
    closed spec fn mapping(&self) -> Map<Seq<u8>, LogRecordPos> {
        self.tree.as_map()
    }

    fn put(&mut self, key: Vec<u8>, pos: LogRecordPos) -> (existed: bool) {
        self.tree.put(key, pos)
    }

    fn get(&self, key: Vec<u8>) -> (r: Option<LogRecordPos>) {
        match self.tree.get(&key) {
            Some(pos) => Some(*pos),
            None => None,
        }
    }

    fn delete(&mut self, key: Vec<u8>) -> (existed: bool) {
        self.tree.delete(&key)
    }
}

/// A snapshot iterator over the ordered-tree index.
pub struct BTreeIterator {
    /// The snapshot, in iteration order.
    items: Vec<(Vec<u8>, LogRecordPos)>,
    /// The current position.
    curr_idx: usize,
    /// The prefix filter and the direction the snapshot was taken in.
    options: IteratorOptions,
}

impl IndexInterator for BTreeIterator {
    closed spec fn items(&self) -> Seq<(Seq<u8>, LogRecordPos)> {
        self.items@.map_values(|p: (Vec<u8>, LogRecordPos)| (p.0@, p.1))
    }

    closed spec fn cursor(&self) -> int {
        self.curr_idx as int
    }

    closed spec fn prefix(&self) -> Seq<u8> {
        self.options.prefix@
    }

    closed spec fn reverse(&self) -> bool {
        self.options.reverse
    }

    fn rewind(&mut self) {
        self.curr_idx = 0;
    }

    fn seek(&mut self, key: Vec<u8>) {
        let ghost its = self.items();
        let ghost rev = self.options.reverse;
        let mut i: usize = 0;
        loop
            invariant
                i <= its.len(),
                its == self.items(),
                its == old(self).items(),
                rev == self.options.reverse,
                rev == old(self).reverse(),
                self.options.prefix@ == old(self).options.prefix@,
                self.items@.len() == its.len(),
                seek_position(its, key@, rev, 0) == seek_position(its, key@, rev, i as int),
            decreases its.len() - i,
        {
            if i >= self.items.len() {
                self.curr_idx = i;
                return;
            }
            let keep = if self.options.reverse {
                let trunc = crate::keys::clone_prefix(&self.items[i].0, key.len());
                key_compare(&key, &trunc) != KeyCmp::Less
            } else {
                key_compare(&self.items[i].0, &key) != KeyCmp::Less
            };
            proof {
                assert(its[i as int].0 == self.items@[i as int].0@);
                assert(keep == seek_keeps(its[i as int].0, key@, rev));
            }
            if keep {
                self.curr_idx = i;
                return;
            }
            i = i + 1;
        }
    }

    fn next(&mut self) -> (r: Option<(Vec<u8>, LogRecordPos)>) {
        let ghost its = self.items();
        let ghost pfx = self.options.prefix@;
        let ghost cur0 = self.curr_idx as int;
        if self.curr_idx >= self.items.len() {
            return None;
        }
        loop
            invariant
                cur0 <= self.curr_idx <= its.len(),
                its == self.items(),
                its == old(self).items(),
                pfx == self.options.prefix@,
                pfx == old(self).prefix(),
                cur0 == old(self).cursor(),
                self.options.reverse == old(self).reverse(),
                self.items@.len() == its.len(),
                remaining_matches(its, pfx, cur0)
                    == remaining_matches(its, pfx, self.curr_idx as int),
            decreases its.len() - self.curr_idx,
        {
            if self.curr_idx >= self.items.len() {
                return None;
            }
            let i = self.curr_idx;
            self.curr_idx = self.curr_idx + 1;
            let matches_prefix = key_has_prefix(&self.items[i].0, &self.options.prefix);
            proof {
                assert(its[i as int].0 == self.items@[i as int].0@);
            }
            if matches_prefix {
                let key = clone_bytes(&self.items[i].0);
                let pos = self.items[i].1;
                proof {
                    assert(remaining_matches(its, pfx, i as int)
                        == seq![its[i as int]] + remaining_matches(its, pfx, i + 1));
                    assert(remaining_matches(its, pfx, i as int)[0] == its[i as int]);
                    assert(remaining_matches(its, pfx, i as int).drop_first()
                        =~= remaining_matches(its, pfx, i + 1));
                }
                return Some((key, pos));
            }
        }
    }
}

} // verus!
