//! A key-sorted map from byte strings to values.
//!
//! Both sides of the store rest on this container: the pending-operation
//! map, and the committed key space of the tree engine.  It is an
//! association vector kept strictly ascending in lexicographic key order,
//! which is exactly what range scans and commit-time batch application
//! need: ascending iteration in key order with point lookups.

use vstd::prelude::*;

use crate::bytes::{compare, lex_lt, lemma_lex_irrefl, lemma_lex_trans, KeyCmp};

verus! {

/// The pairs of an association vector, keys abstracted to byte strings.
pub open spec fn assoc_view<V>(s: Seq<(Vec<u8>, V)>) -> Seq<(Seq<u8>, V)> {
    s.map_values(|e: (Vec<u8>, V)| (e.0@, e.1))
}

/// The pairs are strictly ascending by key: no duplicate keys.
pub open spec fn assoc_sorted<V>(s: Seq<(Seq<u8>, V)>) -> bool {
    forall|i: int, j: int| 0 <= i < j < s.len() ==> lex_lt(s[i].0, s[j].0)
}

/// Some pair of `s` has key `k`.
pub open spec fn assoc_has_key<V>(s: Seq<(Seq<u8>, V)>, k: Seq<u8>) -> bool {
    exists|i: int| 0 <= i < s.len() && s[i].0 == k
}

/// The position of the pair with key `k`.
pub open spec fn assoc_pos<V>(s: Seq<(Seq<u8>, V)>, k: Seq<u8>) -> int {
    choose|i: int| 0 <= i < s.len() && s[i].0 == k
}

/// The value bound to `k`, if any.
pub open spec fn assoc_lookup<V>(s: Seq<(Seq<u8>, V)>, k: Seq<u8>) -> Option<V> {
    if assoc_has_key(s, k) {
        Some(s[assoc_pos(s, k)].1)
    } else {
        None
    }
}

/// In a sorted association vector the pair at position `i` is the one found
/// when looking up its own key.
pub proof fn lemma_assoc_at<V>(s: Seq<(Seq<u8>, V)>, i: int)
    requires
        assoc_sorted(s),
        0 <= i < s.len(),
    ensures
        assoc_has_key(s, s[i].0),
        assoc_pos(s, s[i].0) == i,
        assoc_lookup(s, s[i].0) == Some(s[i].1),
{
    let k = s[i].0;
    assert(assoc_has_key(s, k));
    let j = assoc_pos(s, k);
    assert(0 <= j < s.len() && s[j].0 == k);
    if j != i {
        if j < i {
            assert(lex_lt(s[j].0, s[i].0));
        } else {
            assert(lex_lt(s[i].0, s[j].0));
        }
        lemma_lex_irrefl(k);
    }
}

/// Replacing the pair at the position of an equal key keeps the vector
/// sorted and rebinds only that key.
pub proof fn lemma_assoc_replace<V>(s: Seq<(Seq<u8>, V)>, pos: int, k: Seq<u8>, v: V)
    requires
        assoc_sorted(s),
        0 <= pos < s.len(),
        s[pos].0 == k,
    ensures
        assoc_sorted(s.update(pos, (k, v))),
        assoc_lookup(s.update(pos, (k, v)), k) == Some(v),
        forall|x: Seq<u8>|
            x != k ==> assoc_lookup(s.update(pos, (k, v)), x) == assoc_lookup(s, x),
{
    let t = s.update(pos, (k, v));
    assert(assoc_sorted(t));
    lemma_assoc_at(t, pos);
    assert forall|x: Seq<u8>| x != k implies assoc_lookup(t, x) == assoc_lookup(s, x) by {
        if assoc_has_key(s, x) {
            let i = assoc_pos(s, x);
            assert(0 <= i < s.len() && s[i].0 == x);
            assert(i != pos);
            assert(t[i].0 == x);
            lemma_assoc_at(s, i);
            lemma_assoc_at(t, i);
        } else {
            if assoc_has_key(t, x) {
                let i = assoc_pos(t, x);
                assert(0 <= i < t.len() && t[i].0 == x);
                assert(i != pos);
                assert(s[i].0 == x);
            }
        }
    }
}

/// Inserting a pair between its neighbours keeps the vector sorted and adds
/// exactly that key.
pub proof fn lemma_assoc_insert<V>(s: Seq<(Seq<u8>, V)>, pos: int, k: Seq<u8>, v: V)
    requires
        assoc_sorted(s),
        0 <= pos <= s.len(),
        forall|i: int| 0 <= i < pos ==> lex_lt(s[i].0, k),
        forall|i: int| pos <= i < s.len() ==> lex_lt(k, s[i].0),
    ensures
        assoc_sorted(s.insert(pos, (k, v))),
        assoc_lookup(s.insert(pos, (k, v)), k) == Some(v),
        forall|x: Seq<u8>|
            x != k ==> assoc_lookup(s.insert(pos, (k, v)), x) == assoc_lookup(s, x),
{
    let t = s.insert(pos, (k, v));
    assert(t.len() == s.len() + 1);
    assert(forall|i: int| 0 <= i < pos ==> t[i] == s[i]);
    assert(t[pos] == (k, v));
    assert(forall|i: int| pos < i < t.len() ==> t[i] == s[i - 1]);
    assert forall|i: int, j: int| 0 <= i < j < t.len() implies lex_lt(t[i].0, t[j].0) by {
        if i < pos && j > pos {
            assert(t[i] == s[i] && t[j] == s[j - 1]);
        }
    }
    lemma_assoc_at(t, pos);
    assert forall|x: Seq<u8>| x != k implies assoc_lookup(t, x) == assoc_lookup(s, x) by {
        if assoc_has_key(s, x) {
            let i = assoc_pos(s, x);
            assert(0 <= i < s.len() && s[i].0 == x);
            lemma_assoc_at(s, i);
            if i < pos {
                assert(t[i].0 == x);
                lemma_assoc_at(t, i);
            } else {
                assert(t[i + 1].0 == x);
                lemma_assoc_at(t, i + 1);
            }
        } else {
            if assoc_has_key(t, x) {
                let i = assoc_pos(t, x);
                assert(0 <= i < t.len() && t[i].0 == x);
                assert(i != pos);
                if i < pos {
                    assert(s[i].0 == x);
                } else {
                    assert(s[i - 1].0 == x);
                }
            }
        }
    }
}

/// Removing the pair at a position keeps the vector sorted and unbinds
/// exactly that key.
pub proof fn lemma_assoc_remove<V>(s: Seq<(Seq<u8>, V)>, pos: int)
    requires
        assoc_sorted(s),
        0 <= pos < s.len(),
    ensures
        assoc_sorted(s.remove(pos)),
        assoc_lookup(s.remove(pos), s[pos].0) is None,
        forall|x: Seq<u8>|
            x != s[pos].0 ==> assoc_lookup(s.remove(pos), x) == assoc_lookup(s, x),
{
    let t = s.remove(pos);
    let k = s[pos].0;
    assert(t.len() == s.len() - 1);
    assert(forall|i: int| 0 <= i < pos ==> t[i] == s[i]);
    assert(forall|i: int| pos <= i < t.len() ==> t[i] == s[i + 1]);
    assert(assoc_sorted(t));
    if assoc_has_key(t, k) {
        let i = assoc_pos(t, k);
        assert(0 <= i < t.len() && t[i].0 == k);
        if i < pos {
            assert(lex_lt(s[i].0, s[pos].0));
        } else {
            assert(lex_lt(s[pos].0, s[i + 1].0));
        }
        lemma_lex_irrefl(k);
    }
    assert forall|x: Seq<u8>| x != k implies assoc_lookup(t, x) == assoc_lookup(s, x) by {
        if assoc_has_key(s, x) {
            let i = assoc_pos(s, x);
            assert(0 <= i < s.len() && s[i].0 == x);
            assert(i != pos);
            lemma_assoc_at(s, i);
            if i < pos {
                assert(t[i].0 == x);
                lemma_assoc_at(t, i);
            } else {
                assert(t[i - 1].0 == x);
                lemma_assoc_at(t, i - 1);
            }
        } else {
            if assoc_has_key(t, x) {
                let i = assoc_pos(t, x);
                assert(0 <= i < t.len() && t[i].0 == x);
                if i < pos {
                    assert(s[i].0 == x);
                } else {
                    assert(s[i + 1].0 == x);
                }
            }
        }
    }
}

/// A map from byte-string keys to values, kept strictly ascending in
/// lexicographic key order.
pub struct ByteMap<V> {
    entries: Vec<(Vec<u8>, V)>,
}

impl<V> View for ByteMap<V> {
    type V = Seq<(Seq<u8>, V)>;

    closed spec fn view(&self) -> Seq<(Seq<u8>, V)> {
        assoc_view(self.entries@)
    }
}

impl<V> ByteMap<V> {
    /// The pairs are strictly ascending by key.  Constructors establish
    /// this and every mutation preserves it.
    pub open spec fn wf(&self) -> bool {
        assoc_sorted(self@)
    }

    /// An empty map.
    pub fn new() -> (r: ByteMap<V>)
        ensures
            r@ =~= Seq::<(Seq<u8>, V)>::empty(),
            r.wf(),
    {
        ByteMap { entries: Vec::new() }
    }

    pub fn len(&self) -> (r: usize)
        ensures
            r == self@.len(),
    {
        self.entries.len()
    }

    pub fn is_empty(&self) -> (r: bool)
        ensures
            r == (self@.len() == 0),
    {
        self.entries.is_empty()
    }

    /// The key of the pair at position `i`.
    pub fn key_at(&self, i: usize) -> (r: &Vec<u8>)
        requires
            i < self@.len(),
        ensures
            r@ == self@[i as int].0,
    {
        &self.entries[i].0
    }

    /// The value of the pair at position `i`.
    pub fn value_at(&self, i: usize) -> (r: &V)
        requires
            i < self@.len(),
        ensures
            *r == self@[i as int].1,
    {
        &self.entries[i].1
    }

    /// Point lookup, by binary search over the sorted pairs.
    pub fn get(&self, key: &[u8]) -> (r: Option<&V>)
        requires
            self.wf(),
        ensures
            (r matches Some(v) ==> assoc_lookup(self@, key@) == Some(*v)),
            (r is None ==> assoc_lookup(self@, key@) is None),
    {
        let mut lo: usize = 0;
        let mut hi: usize = self.entries.len();
        while lo < hi
            invariant
                0 <= lo <= hi <= self@.len(),
                forall|j: int| 0 <= j < lo ==> lex_lt(#[trigger] self@[j].0, key@),
                forall|j: int| hi <= j < self@.len() ==> lex_lt(key@, #[trigger] self@[j].0),
            decreases hi - lo,
        {
            let mid = lo + (hi - lo) / 2;
            match compare(self.entries[mid].0.as_slice(), key) {
                KeyCmp::Equal => {
                    proof {
                        lemma_assoc_at(self@, mid as int);
                    }
                    return Some(&self.entries[mid].1);
                },
                KeyCmp::Less => {
                    proof {
                        assert forall|j: int| 0 <= j < mid + 1 implies lex_lt(
                            #[trigger] self@[j].0,
                            key@,
                        ) by {
                            if j < mid {
                                lemma_lex_trans(self@[j].0, self@[mid as int].0, key@);
                            }
                        }
                    }
                    lo = mid + 1;
                },
                KeyCmp::Greater => {
                    proof {
                        assert forall|j: int| mid <= j < self@.len() implies lex_lt(
                            key@,
                            #[trigger] self@[j].0,
                        ) by {
                            if j > mid {
                                lemma_lex_trans(key@, self@[mid as int].0, self@[j].0);
                            }
                        }
                    }
                    hi = mid;
                },
            }
        }
        proof {
            if assoc_has_key(self@, key@) {
                let i = assoc_pos(self@, key@);
                assert(0 <= i < self@.len() && self@[i].0 == key@);
                lemma_lex_irrefl(key@);
            }
        }
        None
    }

    /// Bind `key` to `value`: a pair with the same key is overwritten, any
    /// other pair is kept, and the order is maintained.
    pub fn insert(&mut self, key: Vec<u8>, value: V)
        requires
            old(self).wf(),
        ensures
            final(self).wf(),
            assoc_lookup(final(self)@, key@) == Some(value),
            forall|x: Seq<u8>|
                x != key@ ==> assoc_lookup(final(self)@, x) == assoc_lookup(old(self)@, x),
    {
        let ghost oldview: Seq<(Seq<u8>, V)> = self@;
        let n = self.entries.len();
        let mut pos: usize = 0;
        while pos < n
            invariant
                self@ == oldview,
                0 <= pos <= n == self@.len(),
                forall|j: int| 0 <= j < pos ==> lex_lt(self@[j].0, key@),
            decreases n - pos,
        {
            match compare(self.entries[pos].0.as_slice(), key.as_slice()) {
                KeyCmp::Equal => {
                    proof {
                        lemma_assoc_replace(oldview, pos as int, key@, value);
                    }
                    self.entries.set(pos, (key, value));
                    proof {
                        assert(self@ =~= oldview.update(pos as int, (key@, value)));
                    }
                    return;
                },
                KeyCmp::Greater => {
                    proof {
                        assert forall|i: int| pos <= i < oldview.len() implies lex_lt(
                            key@,
                            oldview[i].0,
                        ) by {
                            if i > pos {
                                lemma_lex_trans(key@, oldview[pos as int].0, oldview[i].0);
                            }
                        }
                        lemma_assoc_insert(oldview, pos as int, key@, value);
                    }
                    self.entries.insert(pos, (key, value));
                    proof {
                        assert(self@ =~= oldview.insert(pos as int, (key@, value)));
                    }
                    return;
                },
                KeyCmp::Less => {},
            }
            pos = pos + 1;
        }
        proof {
            lemma_assoc_insert(oldview, n as int, key@, value);
        }
        self.entries.push((key, value));
        proof {
            assert(self@ =~= oldview.insert(n as int, (key@, value)));
        }
    }

    /// Unbind `key`; a map without the key is left unchanged.
    pub fn remove(&mut self, key: &[u8])
        requires
            old(self).wf(),
        ensures
            final(self).wf(),
            assoc_lookup(final(self)@, key@) is None,
            forall|x: Seq<u8>|
                x != key@ ==> assoc_lookup(final(self)@, x) == assoc_lookup(old(self)@, x),
    {
        let ghost oldview: Seq<(Seq<u8>, V)> = self@;
        let n = self.entries.len();
        let mut pos: usize = 0;
        while pos < n
            invariant
                self@ == oldview,
                0 <= pos <= n == self@.len(),
                forall|j: int| 0 <= j < pos ==> self@[j].0 != key@,
            decreases n - pos,
        {
            match compare(self.entries[pos].0.as_slice(), key) {
                KeyCmp::Equal => {
                    proof {
                        lemma_assoc_remove(oldview, pos as int);
                    }
                    self.entries.remove(pos);
                    proof {
                        assert(self@ =~= oldview.remove(pos as int));
                    }
                    return;
                },
                _ => {},
            }
            pos = pos + 1;
        }
        proof {
            if assoc_has_key(self@, key@) {
                let i = assoc_pos(self@, key@);
                assert(0 <= i < self@.len() && self@[i].0 == key@);
            }
        }
    }

    /// Hand out all pairs in order, leaving the map empty.
    pub fn take_entries(&mut self) -> (r: Vec<(Vec<u8>, V)>)
        ensures
            assoc_view(r@) == old(self)@,
            final(self)@ =~= Seq::<(Seq<u8>, V)>::empty(),
            final(self).wf(),
    {
        let mut taken: Vec<(Vec<u8>, V)> = Vec::new();
        core::mem::swap(&mut self.entries, &mut taken);
        taken
    }
}

} // verus!
