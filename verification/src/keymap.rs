//! An ordered map from byte-string keys to values, kept as a vector of
//! pairs sorted strictly by key.  It backs the engine's index and the
//! staging area of a write batch, and its ordered pairs feed the iterators.

use vstd::prelude::*;

use crate::keys::key_compare;
use crate::keys::lemma_lex_connected;
use crate::keys::lemma_lex_transitive;
use crate::keys::lex_lt;
use crate::keys::KeyCmp;

verus! {

/// Keys strictly ascending along the pair sequence.
pub open spec fn keys_strictly_ascending<V>(ps: Seq<(Seq<u8>, V)>) -> bool {
    forall|i: int, j: int| 0 <= i < j < ps.len()
        ==> lex_lt((#[trigger] ps[i]).0, (#[trigger] ps[j]).0)
}

/// Whether some pair of `ps` carries the key `k`.
pub open spec fn pairs_contain<V>(ps: Seq<(Seq<u8>, V)>, k: Seq<u8>) -> bool {
    exists|i: int| 0 <= i < ps.len() && (#[trigger] ps[i]).0 == k
}

/// The position of the pair carrying `k`.
pub open spec fn pairs_index_of<V>(ps: Seq<(Seq<u8>, V)>, k: Seq<u8>) -> int {
    choose|i: int| 0 <= i < ps.len() && (#[trigger] ps[i]).0 == k
}

/// The pairs read as a map.
pub open spec fn pairs_as_map<V>(ps: Seq<(Seq<u8>, V)>) -> Map<Seq<u8>, V> {
    Map::new(
        |k: Seq<u8>| pairs_contain(ps, k),
        |k: Seq<u8>| ps[pairs_index_of(ps, k)].1,
    )
}

/// With strictly ascending keys, all keys are distinct and each pair is the
/// one its key reads in the map.
pub proof fn lemma_pairs_map<V>(ps: Seq<(Seq<u8>, V)>)
    requires
        keys_strictly_ascending(ps),
    ensures
        forall|i: int| 0 <= i < ps.len()
            ==> pairs_as_map(ps).contains_key((#[trigger] ps[i]).0),
        forall|i: int| 0 <= i < ps.len()
            ==> pairs_as_map(ps)[(#[trigger] ps[i]).0] == ps[i].1,
        forall|i: int, j: int| 0 <= i < ps.len() && 0 <= j < ps.len() && i != j
            ==> (#[trigger] ps[i]).0 != (#[trigger] ps[j]).0,
{
    assert forall|i: int, j: int| 0 <= i < ps.len() && 0 <= j < ps.len() && i != j
        implies (#[trigger] ps[i]).0 != (#[trigger] ps[j]).0 by {
        if i < j {
            lemma_lex_connected(ps[i].0, ps[j].0);
        } else {
            lemma_lex_connected(ps[j].0, ps[i].0);
        }
    }
    assert forall|i: int| 0 <= i < ps.len()
        implies pairs_as_map(ps).contains_key((#[trigger] ps[i]).0)
            && pairs_as_map(ps)[(#[trigger] ps[i]).0] == ps[i].1 by {
        let k = ps[i].0;
        assert(pairs_contain(ps, k));
        let j = pairs_index_of(ps, k);
        assert(0 <= j < ps.len() && ps[j].0 == k);
        assert(j == i);
    }
}

/// An ordered map from byte-string keys to values.
pub struct KeyMap<V> {
    entries: Vec<(Vec<u8>, V)>,
}

impl<V> KeyMap<V> {
    #[verifier::type_invariant]
    spec fn inv(&self) -> bool {
        keys_strictly_ascending(self.pairs())
    }

    /// The entries in key order, each key as its byte sequence.
    pub closed spec fn pairs(&self) -> Seq<(Seq<u8>, V)> {
        self.entries@.map_values(|p: (Vec<u8>, V)| (p.0@, p.1))
    }

    /// The entries read as a map.
    pub open spec fn as_map(&self) -> Map<Seq<u8>, V> {
        pairs_as_map(self.pairs())
    }

    /// An empty map.
    pub fn new() -> (r: Self)
        ensures
            r.pairs() == Seq::<(Seq<u8>, V)>::empty(),
            r.as_map() == Map::<Seq<u8>, V>::empty(),
            keys_strictly_ascending(r.pairs()),
    {
        let r = KeyMap { entries: Vec::new() };
        proof {
            assert(r.pairs() =~= Seq::<(Seq<u8>, V)>::empty());
            assert(r.as_map() =~= Map::<Seq<u8>, V>::empty());
        }
        r
    }

    /// How many keys are mapped; the pairs are in strictly ascending key
    /// order at all times, which callers may rely on.
    pub fn len(&self) -> (r: usize)
        ensures
            r == self.pairs().len(),
            keys_strictly_ascending(self.pairs()),
    {
        proof {
            use_type_invariant(&*self);
        }
        self.entries.len()
    }

    /// Whether no key is mapped.
    pub fn is_empty(&self) -> (r: bool)
        ensures
            r == (self.pairs().len() == 0),
    {
        self.entries.len() == 0
    }

    /// The pair at position `i` of the key order.
    pub fn entry_at(&self, i: usize) -> (r: &(Vec<u8>, V))
        requires
            i < self.pairs().len(),
        ensures
            r.0@ == self.pairs()[i as int].0,
            r.1 == self.pairs()[i as int].1,
            keys_strictly_ascending(self.pairs()),
    {
        proof {
            use_type_invariant(&*self);
        }
        &self.entries[i]
    }

    /// The position of the first key not below `key`: all earlier keys are
    /// strictly below it, all later ones are not.
    fn locate(&self, key: &Vec<u8>) -> (r: usize)
        ensures
            r <= self.pairs().len(),
            forall|i: int| 0 <= i < r ==> lex_lt((#[trigger] self.pairs()[i]).0, key@),
            forall|i: int| r <= i < self.pairs().len()
                ==> !lex_lt((#[trigger] self.pairs()[i]).0, key@),
    {
        proof {
            use_type_invariant(&*self);
        }
        let ghost ps = self.pairs();
        let mut lo: usize = 0;
        let mut hi: usize = self.entries.len();
        while lo < hi
            invariant
                lo <= hi <= ps.len(),
                ps == self.pairs(),
                ps.len() == self.entries@.len(),
                keys_strictly_ascending(ps),
                forall|i: int| 0 <= i < lo ==> lex_lt((#[trigger] ps[i]).0, key@),
                forall|i: int| hi <= i < ps.len() ==> !lex_lt((#[trigger] ps[i]).0, key@),
            decreases hi - lo,
        {
            let mid = lo + (hi - lo) / 2;
            let cmp = key_compare(&self.entries[mid].0, key);
            proof {
                assert(ps[mid as int].0 == self.entries@[mid as int].0@);
            }
            if cmp == KeyCmp::Less {
                proof {
                    assert forall|i: int| 0 <= i < mid + 1
                        implies lex_lt((#[trigger] ps[i]).0, key@) by {
                        if i < mid {
                            lemma_lex_transitive(ps[i].0, ps[mid as int].0, key@);
                        }
                    }
                }
                lo = mid + 1;
            } else {
                proof {
                    assert forall|i: int| mid <= i < ps.len()
                        implies !lex_lt((#[trigger] ps[i]).0, key@) by {
                        lemma_lex_connected(ps[mid as int].0, key@);
                        if i > mid && lex_lt(ps[i].0, key@) {
                            if ps[mid as int].0 == key@ {
                                lemma_lex_connected(ps[mid as int].0, ps[i].0);
                                lemma_lex_connected(ps[i].0, key@);
                            } else {
                                lemma_lex_transitive(key@, ps[mid as int].0, ps[i].0);
                                lemma_lex_connected(ps[i].0, key@);
                            }
                        }
                    }
                }
                hi = mid;
            }
        }
        lo
    }

    /// Look a key up.
    pub fn get(&self, key: &Vec<u8>) -> (r: Option<&V>)
        ensures
            match r {
                Some(v) => self.as_map().contains_key(key@) && *v == self.as_map()[key@],
                None => !self.as_map().contains_key(key@),
            },
    {
        proof {
            use_type_invariant(&*self);
            lemma_pairs_map(self.pairs());
        }
        let r = self.locate(key);
        if r < self.entries.len() {
            let cmp = key_compare(&self.entries[r].0, key);
            proof {
                assert(self.pairs()[r as int].0 == self.entries@[r as int].0@);
            }
            if cmp == KeyCmp::Equal {
                proof {
                    assert(pairs_contain(self.pairs(), key@));
                    let i = pairs_index_of(self.pairs(), key@);
                    assert(0 <= i < self.pairs().len() && self.pairs()[i].0 == key@);
                    assert(i == r as int);
                }
                let e = &self.entries[r];
                return Some(&e.1);
            }
        }
        proof {
            if pairs_contain(self.pairs(), key@) {
                let i = pairs_index_of(self.pairs(), key@);
                assert(0 <= i < self.pairs().len() && self.pairs()[i].0 == key@);
                lemma_lex_connected(self.pairs()[i].0, key@);
            }
        }
        None
    }

    /// Map `key` to `value`, replacing what was there; the result says
    /// whether an entry previously existed.
    pub fn put(&mut self, key: Vec<u8>, value: V) -> (existed: bool)
        ensures
            final(self).as_map() == old(self).as_map().insert(key@, value),
            existed == old(self).as_map().contains_key(key@),
            final(self).pairs().len()
                == old(self).pairs().len() + (if existed { 0int } else { 1int }),
            keys_strictly_ascending(final(self).pairs()),
    {
        proof {
            use_type_invariant(&*self);
            lemma_pairs_map(self.pairs());
        }
        let ghost ps0 = self.pairs();
        let r = self.locate(&key);
        let mut found = false;
        if r < self.entries.len() {
            let cmp = key_compare(&self.entries[r].0, &key);
            proof {
                assert(ps0[r as int].0 == self.entries@[r as int].0@);
            }
            if cmp == KeyCmp::Equal {
                found = true;
            }
        }
        proof {
            if found {
                assert(pairs_contain(ps0, key@));
            } else if pairs_contain(ps0, key@) {
                let i = pairs_index_of(ps0, key@);
                assert(0 <= i < ps0.len() && ps0[i].0 == key@);
                lemma_lex_connected(ps0[i].0, key@);
            }
        }
        let ghost existed_g = found;

        let mut es: Vec<(Vec<u8>, V)> = Vec::new();
        core::mem::swap(&mut es, &mut self.entries);
        proof {
            assert(es@.map_values(|p: (Vec<u8>, V)| (p.0@, p.1)) == ps0);
        }
        if found {
            let _replaced = es.remove(r);
        }
        es.insert(r, (key, value));
        let ghost ps1 = es@.map_values(|p: (Vec<u8>, V)| (p.0@, p.1));
        let ghost shift: int = if existed_g { 0 } else { 1 };
        proof {
            assert(ps1.len() == ps0.len() + 1 - (if existed_g { 1int } else { 0int }));
            assert(ps1[r as int] == (key@, value));
            assert(forall|q: int| 0 <= q < r ==> #[trigger] ps1[q] == ps0[q]);
            assert forall|q: int| r < q < ps1.len() implies #[trigger] ps1[q] == ps0[q - shift] by {
                if existed_g {
                    assert(es@[q] == old(self).entries@[q]);
                } else {
                    assert(es@[q] == old(self).entries@[q - 1]);
                }
            }
            assert forall|i: int, j: int| 0 <= i < j < ps1.len()
                implies lex_lt((#[trigger] ps1[i]).0, (#[trigger] ps1[j]).0) by {
                lemma_put_sorted(ps0, ps1, key@, r as int, existed_g, i, j);
            }
        }
        core::mem::swap(&mut es, &mut self.entries);
        proof {
            assert(self.pairs() == ps1);
            lemma_put_map(ps0, ps1, key@, value, r as int, existed_g);
        }
        found
    }

    /// Remove a key; the result says whether an entry existed.
    pub fn delete(&mut self, key: &Vec<u8>) -> (existed: bool)
        ensures
            final(self).as_map() == old(self).as_map().remove(key@),
            existed == old(self).as_map().contains_key(key@),
            final(self).pairs().len()
                == old(self).pairs().len() - (if existed { 1int } else { 0int }),
            keys_strictly_ascending(final(self).pairs()),
    {
        match self.take(key) {
            Some(_) => true,
            None => false,
        }
    }

    /// Remove a key and surrender its value.
    pub fn take(&mut self, key: &Vec<u8>) -> (r: Option<V>)
        ensures
            final(self).as_map() == old(self).as_map().remove(key@),
            match r {
                Some(v) => old(self).as_map().contains_key(key@)
                    && v == old(self).as_map()[key@],
                None => !old(self).as_map().contains_key(key@),
            },
            final(self).pairs().len()
                == old(self).pairs().len() - (if r is Some { 1int } else { 0int }),
            keys_strictly_ascending(final(self).pairs()),
    {
        proof {
            use_type_invariant(&*self);
            lemma_pairs_map(self.pairs());
        }
        let ghost ps0 = self.pairs();
        let r = self.locate(key);
        let mut found = false;
        if r < self.entries.len() {
            let cmp = key_compare(&self.entries[r].0, key);
            proof {
                assert(ps0[r as int].0 == self.entries@[r as int].0@);
            }
            if cmp == KeyCmp::Equal {
                found = true;
            }
        }
        if !found {
            proof {
                if pairs_contain(ps0, key@) {
                    let i = pairs_index_of(ps0, key@);
                    assert(0 <= i < ps0.len() && ps0[i].0 == key@);
                    lemma_lex_connected(ps0[i].0, key@);
                }
                assert(self.as_map() =~= self.as_map().remove(key@));
            }
            return None;
        }

        let mut es: Vec<(Vec<u8>, V)> = Vec::new();
        core::mem::swap(&mut es, &mut self.entries);
        proof {
            assert(es@.map_values(|p: (Vec<u8>, V)| (p.0@, p.1)) == ps0);
        }
        let removed = es.remove(r);
        let ghost ps1 = es@.map_values(|p: (Vec<u8>, V)| (p.0@, p.1));
        proof {
            assert(ps1.len() == ps0.len() - 1);
            assert(forall|q: int| 0 <= q < r ==> #[trigger] ps1[q] == ps0[q]);
            assert forall|q: int| r <= q < ps1.len() implies #[trigger] ps1[q] == ps0[q + 1] by {
                assert(es@[q] == old(self).entries@[q + 1]);
            }
            assert forall|i: int, j: int| 0 <= i < j < ps1.len()
                implies lex_lt((#[trigger] ps1[i]).0, (#[trigger] ps1[j]).0) by {
                let oi = if i < r { i } else { i + 1 };
                let oj = if j < r { j } else { j + 1 };
                assert(ps1[i] == ps0[oi]);
                assert(ps1[j] == ps0[oj]);
            }
        }
        core::mem::swap(&mut es, &mut self.entries);
        proof {
            assert(self.pairs() == ps1);
            lemma_delete_map(ps0, ps1, key@, r as int);
            assert(removed.0@ == ps0[r as int].0 && removed.1 == ps0[r as int].1);
            assert(pairs_as_map(ps0)[key@] == ps0[r as int].1);
        }
        Some(removed.1)
    }

    /// Drop every entry.
    pub fn clear(&mut self)
        ensures
            final(self).pairs() == Seq::<(Seq<u8>, V)>::empty(),
            final(self).as_map() == Map::<Seq<u8>, V>::empty(),
            keys_strictly_ascending(final(self).pairs()),
    {
        self.entries = Vec::new();
        proof {
            assert(self.pairs() =~= Seq::<(Seq<u8>, V)>::empty());
            assert(self.as_map() =~= Map::<Seq<u8>, V>::empty());
        }
    }
}

/// Inserting at the located position keeps the keys strictly ascending.
proof fn lemma_put_sorted<V>(
    ps0: Seq<(Seq<u8>, V)>,
    ps1: Seq<(Seq<u8>, V)>,
    key: Seq<u8>,
    r: int,
    found: bool,
    i: int,
    j: int,
)
    requires
        keys_strictly_ascending(ps0),
        0 <= r <= ps0.len(),
        forall|q: int| 0 <= q < r ==> lex_lt((#[trigger] ps0[q]).0, key),
        forall|q: int| r <= q < ps0.len() ==> !lex_lt((#[trigger] ps0[q]).0, key),
        found ==> r < ps0.len() && ps0[r].0 == key,
        !found ==> !pairs_contain(ps0, key),
        ps1.len() == ps0.len() + (if found { 0int } else { 1int }),
        ps1[r].0 == key,
        forall|q: int| 0 <= q < r ==> #[trigger] ps1[q] == ps0[q],
        forall|q: int| r < q < ps1.len()
            ==> #[trigger] ps1[q] == ps0[q - (if found { 0int } else { 1int })],
        0 <= i < j < ps1.len(),
    ensures
        lex_lt(ps1[i].0, ps1[j].0),
{
    let shift: int = if found { 0 } else { 1 };
    if j < r {
        // both below the insertion point
    } else if i == r {
        let oj = j - shift;
        assert(ps1[j] == ps0[oj]);
        assert(r <= oj < ps0.len());
        assert(!lex_lt(ps0[oj].0, key));
        lemma_lex_connected(ps0[oj].0, key);
        if ps0[oj].0 == key {
            if found {
                assert(oj != r || ps1[j] == ps0[r]);
                assert(oj > r);
                lemma_lex_connected(ps0[r].0, ps0[oj].0);
            } else {
                assert(pairs_contain(ps0, key));
            }
        }
        assert(lex_lt(key, ps0[oj].0));
    } else if j == r {
        assert(ps1[i] == ps0[i]);
        assert(lex_lt(ps0[i].0, key));
    } else if i > r {
        assert(ps1[i] == ps0[i - shift]);
        assert(ps1[j] == ps0[j - shift]);
    } else {
        // i < r < j
        assert(ps1[i] == ps0[i]);
        let oj = j - shift;
        assert(ps1[j] == ps0[oj]);
        assert(lex_lt(ps0[i].0, key));
        assert(!lex_lt(ps0[oj].0, key));
        lemma_lex_connected(ps0[oj].0, key);
        if ps0[oj].0 == key {
            if found {
                if oj == r {
                } else {
                    lemma_lex_connected(ps0[r].0, ps0[oj].0);
                }
                assert(ps1[j].0 == key);
                assert(lex_lt(ps0[i].0, ps1[j].0));
            } else {
                assert(pairs_contain(ps0, key));
            }
        } else {
            lemma_lex_transitive(ps0[i].0, key, ps0[oj].0);
        }
    }
}

/// Inserting at the located position turns the map into `insert`.
proof fn lemma_put_map<V>(
    ps0: Seq<(Seq<u8>, V)>,
    ps1: Seq<(Seq<u8>, V)>,
    key: Seq<u8>,
    value: V,
    r: int,
    found: bool,
)
    requires
        keys_strictly_ascending(ps0),
        keys_strictly_ascending(ps1),
        0 <= r <= ps0.len(),
        found ==> r < ps0.len() && ps0[r].0 == key,
        !found ==> !pairs_contain(ps0, key),
        ps1.len() == ps0.len() + (if found { 0int } else { 1int }),
        ps1[r] == (key, value),
        forall|q: int| 0 <= q < r ==> #[trigger] ps1[q] == ps0[q],
        forall|q: int| r < q < ps1.len()
            ==> #[trigger] ps1[q] == ps0[q - (if found { 0int } else { 1int })],
    ensures
        pairs_as_map(ps1) == pairs_as_map(ps0).insert(key, value),
{
    let shift: int = if found { 0 } else { 1 };
    lemma_pairs_map(ps0);
    lemma_pairs_map(ps1);
    assert forall|k: Seq<u8>| #[trigger] pairs_as_map(ps1).contains_key(k)
        implies pairs_as_map(ps0).insert(key, value).contains_key(k) by {
        let i = pairs_index_of(ps1, k);
        assert(0 <= i < ps1.len() && ps1[i].0 == k);
        if i != r {
            let oi = if i < r { i } else { i - shift };
            assert(ps1[i] == ps0[oi]);
            assert(pairs_contain(ps0, k));
        }
    }
    assert forall|k: Seq<u8>| #[trigger] pairs_as_map(ps0).insert(key, value).contains_key(k)
        implies pairs_as_map(ps1).contains_key(k) by {
        if k == key {
            assert(ps1[r].0 == k);
            assert(pairs_contain(ps1, k));
        } else {
            let i = pairs_index_of(ps0, k);
            assert(0 <= i < ps0.len() && ps0[i].0 == k);
            if i < r {
                assert(ps1[i].0 == k);
            } else if found {
                assert(i != r);
                assert(ps1[i] == ps0[i]);
            } else {
                assert(ps1[i + 1] == ps0[i]);
            }
            assert(pairs_contain(ps1, k));
        }
    }
    assert forall|k: Seq<u8>| #[trigger] pairs_as_map(ps1).contains_key(k)
        implies pairs_as_map(ps1)[k] == pairs_as_map(ps0).insert(key, value)[k] by {
        let i = pairs_index_of(ps1, k);
        assert(0 <= i < ps1.len() && ps1[i].0 == k);
        assert(pairs_as_map(ps1)[k] == ps1[i].1);
        if i == r {
            assert(k == key);
            assert(ps1[i].1 == value);
        } else {
            assert(k != key) by {
                if k == key {
                    assert(ps1[r].0 == key);
                    assert(ps1[i].0 != ps1[r].0);
                }
            }
            let oi = if i < r { i } else { i - shift };
            assert(ps1[i] == ps0[oi]);
            assert(pairs_as_map(ps0)[k] == ps0[oi].1);
        }
    }
    assert(pairs_as_map(ps1) =~= pairs_as_map(ps0).insert(key, value));
}

/// Removing the located entry turns the map into `remove`.
proof fn lemma_delete_map<V>(
    ps0: Seq<(Seq<u8>, V)>,
    ps1: Seq<(Seq<u8>, V)>,
    key: Seq<u8>,
    r: int,
)
    requires
        keys_strictly_ascending(ps0),
        keys_strictly_ascending(ps1),
        0 <= r < ps0.len(),
        ps0[r].0 == key,
        ps1.len() == ps0.len() - 1,
        forall|q: int| 0 <= q < r ==> #[trigger] ps1[q] == ps0[q],
        forall|q: int| r <= q < ps1.len() ==> #[trigger] ps1[q] == ps0[q + 1],
    ensures
        pairs_as_map(ps1) == pairs_as_map(ps0).remove(key),
{
    lemma_pairs_map(ps0);
    lemma_pairs_map(ps1);
    assert forall|k: Seq<u8>| #[trigger] pairs_as_map(ps1).contains_key(k)
        implies pairs_as_map(ps0).remove(key).contains_key(k) by {
        let i = pairs_index_of(ps1, k);
        assert(0 <= i < ps1.len() && ps1[i].0 == k);
        let oi = if i < r { i } else { i + 1 };
        assert(ps1[i] == ps0[oi]);
        assert(pairs_contain(ps0, k));
        assert(oi != r);
        assert(k != key) by {
            if k == key {
                assert(ps0[oi].0 == ps0[r].0);
            }
        }
    }
    assert forall|k: Seq<u8>| #[trigger] pairs_as_map(ps0).remove(key).contains_key(k)
        implies pairs_as_map(ps1).contains_key(k) by {
        let i = pairs_index_of(ps0, k);
        assert(0 <= i < ps0.len() && ps0[i].0 == k);
        assert(i != r);
        if i < r {
            assert(ps1[i].0 == k);
        } else {
            assert(ps1[i - 1] == ps0[i]);
        }
        assert(pairs_contain(ps1, k));
    }
    assert forall|k: Seq<u8>| #[trigger] pairs_as_map(ps1).contains_key(k)
        implies pairs_as_map(ps1)[k] == pairs_as_map(ps0).remove(key)[k] by {
        let i = pairs_index_of(ps1, k);
        assert(0 <= i < ps1.len() && ps1[i].0 == k);
        let oi = if i < r { i } else { i + 1 };
        assert(ps1[i] == ps0[oi]);
        assert(oi != r);
        assert(k != key) by {
            if k == key {
                assert(ps0[oi].0 == ps0[r].0);
            }
        }
        assert(pairs_as_map(ps0)[k] == ps0[oi].1);
    }
    assert(pairs_as_map(ps1) =~= pairs_as_map(ps0).remove(key));
}

} // verus!
