//! Ordering of user keys: keys are byte strings, compared lexicographically
//! on raw bytes.  The index keeps its entries in this order and iterators
//! filter them by byte-string prefix.

use vstd::prelude::*;

verus! {

/// Strict lexicographic order on byte strings.
pub open spec fn lex_lt(a: Seq<u8>, b: Seq<u8>) -> bool
    decreases a.len(),
{
    if b.len() == 0 {
        false
    } else if a.len() == 0 {
        true
    } else if a[0] < b[0] {
        true
    } else if a[0] > b[0] {
        false
    } else {
        lex_lt(a.drop_first(), b.drop_first())
    }
}

/// Whether `p` is a prefix of `key`.
pub open spec fn has_prefix(key: Seq<u8>, p: Seq<u8>) -> bool {
    p.len() <= key.len() && key.take(p.len() as int) == p
}

/// Of two distinct keys, exactly one precedes the other; equal keys precede
/// neither.
pub proof fn lemma_lex_connected(a: Seq<u8>, b: Seq<u8>)
    ensures
        a == b <==> !lex_lt(a, b) && !lex_lt(b, a),
        !(lex_lt(a, b) && lex_lt(b, a)),
    decreases a.len(),
{
    if a.len() == 0 && b.len() == 0 {
        assert(a =~= b);
    } else if a.len() > 0 && b.len() > 0 && a[0] == b[0] {
        lemma_lex_connected(a.drop_first(), b.drop_first());
        if a.drop_first() == b.drop_first() {
            assert(a =~= b) by {
                assert(a.len() == b.len());
                assert forall|i: int| 0 <= i < a.len() implies a[i] == b[i] by {
                    if i > 0 {
                        assert(a.drop_first()[i - 1] == a[i]);
                        assert(b.drop_first()[i - 1] == b[i]);
                    }
                }
            }
        }
        if a == b {
            assert(a.drop_first() =~= b.drop_first());
        }
    } else {
        if a == b {
            assert(a.len() == b.len());
            if a.len() > 0 {
                assert(a[0] == b[0]);
            }
        }
    }
}

/// Lexicographic order is transitive.
pub proof fn lemma_lex_transitive(a: Seq<u8>, b: Seq<u8>, c: Seq<u8>)
    requires
        lex_lt(a, b),
        lex_lt(b, c),
    ensures
        lex_lt(a, c),
    decreases a.len(),
{
    if a.len() > 0 && b.len() > 0 && c.len() > 0 && a[0] == b[0] && b[0] == c[0] {
        lemma_lex_transitive(a.drop_first(), b.drop_first(), c.drop_first());
    }
}

/// A shared prefix of length `i` and a difference at `i` (or `a` ending
/// there) put `a` strictly before `b`.
proof fn lemma_lex_from_prefix(a: Seq<u8>, b: Seq<u8>, i: int)
    requires
        0 <= i <= a.len(),
        i <= b.len(),
        a.take(i) == b.take(i),
        i < b.len(),
        i == a.len() || (i < a.len() && a[i] < b[i]),
    ensures
        lex_lt(a, b),
    decreases i,
{
    if i == 0 {
    } else {
        assert(a.take(i)[0] == a[0]);
        assert(b.take(i)[0] == b[0]);
        assert(a.take(i)[0] == b.take(i)[0]);
        assert(a[0] == b[0]);
        assert(a.drop_first().take(i - 1) =~= b.drop_first().take(i - 1)) by {
            assert forall|j: int| 0 <= j < i - 1
                implies #[trigger] a.drop_first().take(i - 1)[j]
                    == b.drop_first().take(i - 1)[j] by {
                assert(a.drop_first().take(i - 1)[j] == a[j + 1]);
                assert(b.drop_first().take(i - 1)[j] == b[j + 1]);
                assert(a.take(i)[j + 1] == a[j + 1]);
                assert(b.take(i)[j + 1] == b[j + 1]);
                assert(a.take(i)[j + 1] == b.take(i)[j + 1]);
            }
        }
        if i < a.len() {
            assert(a.drop_first()[i - 1] == a[i]);
            assert(b.drop_first()[i - 1] == b[i]);
        }
        lemma_lex_from_prefix(a.drop_first(), b.drop_first(), i - 1);
    }
}

/// How two keys compare.
#[derive(Clone, Copy, Debug, PartialEq, Eq, Structural)]
pub enum KeyCmp {
    Less,
    Equal,
    Greater,
}

/// Compare two keys in lexicographic order.
pub fn key_compare(a: &Vec<u8>, b: &Vec<u8>) -> (r: KeyCmp)
    ensures
        r == KeyCmp::Less <==> lex_lt(a@, b@),
        r == KeyCmp::Equal <==> a@ == b@,
        r == KeyCmp::Greater <==> lex_lt(b@, a@),
{
    let mut i: usize = 0;
    loop
        invariant
            i <= a@.len(),
            i <= b@.len(),
            a@.take(i as int) == b@.take(i as int),
        decreases a@.len() - i,
    {
        if i == a.len() && i == b.len() {
            proof {
                assert(a@.take(i as int) =~= a@);
                assert(b@.take(i as int) =~= b@);
                lemma_lex_connected(a@, b@);
            }
            return KeyCmp::Equal;
        }
        if i == a.len() {
            proof {
                lemma_lex_from_prefix(a@, b@, i as int);
                lemma_lex_connected(a@, b@);
            }
            return KeyCmp::Less;
        }
        if i == b.len() {
            proof {
                lemma_lex_from_prefix(b@, a@, i as int);
                lemma_lex_connected(a@, b@);
            }
            return KeyCmp::Greater;
        }
        if a[i] < b[i] {
            proof {
                lemma_lex_from_prefix(a@, b@, i as int);
                lemma_lex_connected(a@, b@);
            }
            return KeyCmp::Less;
        }
        if a[i] > b[i] {
            proof {
                lemma_lex_from_prefix(b@, a@, i as int);
                lemma_lex_connected(a@, b@);
            }
            return KeyCmp::Greater;
        }
        proof {
            assert(a@.take(i + 1) =~= b@.take(i + 1));
        }
        i = i + 1;
    }
}

/// Whether `p` is a prefix of `key`.
pub fn key_has_prefix(key: &Vec<u8>, p: &Vec<u8>) -> (r: bool)
    ensures
        r == has_prefix(key@, p@),
{
    if p.len() > key.len() {
        proof {
            assert(!has_prefix(key@, p@));
        }
        return false;
    }
    let mut i: usize = 0;
    while i < p.len()
        invariant
            i <= p@.len(),
            p@.len() <= key@.len(),
            key@.take(i as int) == p@.take(i as int),
        decreases p@.len() - i,
    {
        if key[i] != p[i] {
            proof {
                if has_prefix(key@, p@) {
                    assert(key@.take(p@.len() as int)[i as int] == p@[i as int]);
                }
            }
            return false;
        }
        proof {
            assert(key@.take(i + 1) =~= p@.take(i + 1));
        }
        i = i + 1;
    }
    proof {
        assert(key@.take(p@.len() as int) =~= p@);
    }
    true
}

/// Copy at most the first `n` bytes of a key.
pub fn clone_prefix(v: &Vec<u8>, n: usize) -> (r: Vec<u8>)
    ensures
        r@ == (if n < v@.len() {
            v@.take(n as int)
        } else {
            v@
        }),
{
    let m = if n < v.len() {
        n
    } else {
        v.len()
    };
    let mut out: Vec<u8> = Vec::new();
    let mut i: usize = 0;
    while i < m
        invariant
            i <= m,
            m <= v@.len(),
            out@ =~= v@.take(i as int),
        decreases m - i,
    {
        out.push(v[i]);
        i = i + 1;
    }
    proof {
        if n >= v@.len() {
            assert(out@ =~= v@);
        }
    }
    out
}

/// Copy a key: a fresh byte vector with the same contents.
pub fn clone_bytes(v: &Vec<u8>) -> (r: Vec<u8>)
    ensures
        r@ == v@,
{
    let mut out: Vec<u8> = Vec::new();
    let mut i: usize = 0;
    while i < v.len()
        invariant
            i <= v@.len(),
            out@ =~= v@.take(i as int),
        decreases v@.len() - i,
    {
        out.push(v[i]);
        i = i + 1;
    }
    proof {
        assert(out@ =~= v@);
    }
    out
}

} // verus!
