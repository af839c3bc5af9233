//! Association map from a client id to a value.
//!
//! Entries keep their insertion order, so iterating over them is
//! deterministic; keys are unique whenever `wf()` holds.

use vstd::prelude::*;

verus! {

/// Index of the first entry with key `k`, or `-1` if no entry has that key.
pub open spec fn key_index<V>(s: Seq<(i32, V)>, k: i32) -> int
    decreases s.len(),
{
    if s.len() == 0 {
        -1
    } else if s[0].0 == k {
        0
    } else if key_index(s.drop_first(), k) < 0 {
        -1
    } else {
        key_index(s.drop_first(), k) + 1
    }
}

pub open spec fn has_key<V>(s: Seq<(i32, V)>, k: i32) -> bool {
    key_index(s, k) >= 0
}

/// The value stored under key `k`, if any.
pub open spec fn value_of<V>(s: Seq<(i32, V)>, k: i32) -> Option<V> {
    if has_key(s, k) {
        Some(s[key_index(s, k)].1)
    } else {
        None
    }
}

pub open spec fn distinct_keys<V>(s: Seq<(i32, V)>) -> bool {
    forall|i: int, j: int| 0 <= i < j < s.len() ==> s[i].0 != s[j].0
}

/// The entry list after storing `v` under `k`: an existing entry is
/// overwritten in place, a new key is appended at the end.
pub open spec fn spec_insert<V>(s: Seq<(i32, V)>, k: i32, v: V) -> Seq<(i32, V)> {
    if has_key(s, k) {
        s.update(key_index(s, k), (k, v))
    } else {
        s.push((k, v))
    }
}

/// The entry list after removing key `k`; other entries keep their order.
pub open spec fn spec_remove<V>(s: Seq<(i32, V)>, k: i32) -> Seq<(i32, V)> {
    if has_key(s, k) {
        s.remove(key_index(s, k))
    } else {
        s
    }
}

pub proof fn lemma_key_index<V>(s: Seq<(i32, V)>, k: i32)
    ensures
        -1 <= key_index(s, k) < s.len(),
        key_index(s, k) >= 0 ==> s[key_index(s, k)].0 == k,
        forall|i: int| 0 <= i < key_index(s, k) ==> s[i].0 != k,
        key_index(s, k) == -1 ==> forall|i: int| 0 <= i < s.len() ==> s[i].0 != k,
    decreases s.len(),
{
    if s.len() > 0 && s[0].0 != k {
        lemma_key_index(s.drop_first(), k);
        assert forall|i: int| 0 <= i < key_index(s, k) implies s[i].0 != k by {
            if i > 0 {
                assert(s.drop_first()[i - 1] == s[i]);
            }
        }
        if key_index(s.drop_first(), k) == -1 {
            assert forall|i: int| 0 <= i < s.len() implies s[i].0 != k by {
                if i > 0 {
                    assert(s.drop_first()[i - 1] == s[i]);
                }
            }
        }
    }
}

/// With a match at `i` and no match before it, `i` is the key index.
pub proof fn lemma_key_index_is<V>(s: Seq<(i32, V)>, k: i32, i: int)
    requires
        0 <= i < s.len(),
        s[i].0 == k,
        forall|j: int| 0 <= j < i ==> s[j].0 != k,
    ensures
        key_index(s, k) == i,
{
    lemma_key_index(s, k);
    if key_index(s, k) < i {
        assert(s[key_index(s, k)].0 == k);
    }
}

/// Appending an entry adds exactly its key to the key set.
pub proof fn lemma_has_key_push<V>(t: Seq<(i32, V)>, p: (i32, V), k: i32)
    ensures
        has_key(t.push(p), k) <==> (has_key(t, k) || p.0 == k),
{
    lemma_key_index(t, k);
    lemma_key_index(t.push(p), k);
    if has_key(t, k) {
        let i = key_index(t, k);
        if !has_key(t.push(p), k) {
            assert(t.push(p)[i].0 != k);
        }
    }
    if p.0 == k {
        if !has_key(t.push(p), k) {
            assert(t.push(p)[t.len() as int].0 != k);
        }
    }
    if has_key(t.push(p), k) {
        let j = key_index(t.push(p), k);
        if j < t.len() {
            if !has_key(t, k) {
                assert(t[j].0 != k);
                assert(t.push(p)[j] == t[j]);
            }
        } else {
            assert(t.push(p)[j] == p);
        }
    }
}

/// Under distinct keys, every entry is found at its own index.
pub proof fn lemma_entry_found<V>(s: Seq<(i32, V)>, i: int)
    requires
        distinct_keys(s),
        0 <= i < s.len(),
    ensures
        key_index(s, s[i].0) == i,
        value_of(s, s[i].0) == Some(s[i].1),
{
    lemma_key_index_is(s, s[i].0, i);
}

pub proof fn lemma_spec_insert<V>(s: Seq<(i32, V)>, k: i32, v: V)
    requires
        distinct_keys(s),
    ensures
        distinct_keys(spec_insert(s, k, v)),
        value_of(spec_insert(s, k, v), k) == Some(v),
        forall|k2: i32| k2 != k ==> value_of(spec_insert(s, k, v), k2) == value_of(s, k2),
        forall|k2: i32| k2 != k ==> has_key(spec_insert(s, k, v), k2) == has_key(s, k2),
        has_key(spec_insert(s, k, v), k),
        spec_insert(s, k, v).len() == if has_key(s, k) { s.len() } else { s.len() + 1 },
{
    lemma_key_index(s, k);
    let t = spec_insert(s, k, v);
    if has_key(s, k) {
        let i = key_index(s, k);
        assert(t == s.update(i, (k, v)));
        lemma_key_index_is(t, k, i);
        assert forall|k2: i32| k2 != k implies value_of(t, k2) == value_of(s, k2)
            && has_key(t, k2) == has_key(s, k2) by {
            lemma_key_index(s, k2);
            lemma_key_index(t, k2);
            if has_key(s, k2) {
                lemma_key_index_is(t, k2, key_index(s, k2));
            } else if has_key(t, k2) {
                assert(s[key_index(t, k2)].0 == k2);
            }
        }
    } else {
        assert(t == s.push((k, v)));
        lemma_key_index_is(t, k, s.len() as int);
        assert forall|k2: i32| k2 != k implies value_of(t, k2) == value_of(s, k2)
            && has_key(t, k2) == has_key(s, k2) by {
            lemma_key_index(s, k2);
            if has_key(s, k2) {
                lemma_key_index_is(t, k2, key_index(s, k2));
            } else {
                lemma_key_index(t, k2);
                if has_key(t, k2) {
                    assert(t[key_index(t, k2)].0 == k2);
                }
            }
        }
    }
}

pub proof fn lemma_spec_remove<V>(s: Seq<(i32, V)>, k: i32)
    requires
        distinct_keys(s),
    ensures
        distinct_keys(spec_remove(s, k)),
        value_of(spec_remove(s, k), k) is None,
        !has_key(spec_remove(s, k), k),
        forall|k2: i32| k2 != k ==> value_of(spec_remove(s, k), k2) == value_of(s, k2),
        forall|k2: i32| k2 != k ==> has_key(spec_remove(s, k), k2) == has_key(s, k2),
        spec_remove(s, k).len() == if has_key(s, k) { s.len() - 1 } else { s.len() as int },
{
    lemma_key_index(s, k);
    if has_key(s, k) {
        let i = key_index(s, k);
        let t = s.remove(i);
        lemma_key_index(t, k);
        if has_key(t, k) {
            let j = key_index(t, k);
            assert(t[j].0 == k);
            if j < i {
                assert(t[j] == s[j]);
            } else {
                assert(t[j] == s[j + 1]);
            }
        }
        assert forall|k2: i32| k2 != k implies value_of(t, k2) == value_of(s, k2)
            && has_key(t, k2) == has_key(s, k2) by {
            lemma_key_index(s, k2);
            lemma_key_index(t, k2);
            if has_key(s, k2) {
                let j = key_index(s, k2);
                if j < i {
                    assert(t[j] == s[j]);
                    lemma_key_index_is(t, k2, j);
                } else {
                    assert(s[j].0 == k2 && j != i);
                    assert(t[j - 1] == s[j]);
                    assert forall|m: int| 0 <= m < j - 1 implies t[m].0 != k2 by {
                        if m < i {
                            assert(t[m] == s[m]);
                        } else {
                            assert(t[m] == s[m + 1]);
                        }
                    }
                    lemma_key_index_is(t, k2, j - 1);
                }
            } else {
                if has_key(t, k2) {
                    let j = key_index(t, k2);
                    assert(t[j].0 == k2);
                    if j < i {
                        assert(t[j] == s[j]);
                    } else {
                        assert(t[j] == s[j + 1]);
                    }
                }
            }
        }
    }
}

/// Association map from client id (`i32`) to a value, in insertion order.
pub struct CidMap<V> {
    pairs: Vec<(i32, V)>,
}

impl<V> View for CidMap<V> {
    type V = Seq<(i32, V)>;

    closed spec fn view(&self) -> Seq<(i32, V)> {
        self.pairs@
    }
}

impl<V> CidMap<V> {
    pub open spec fn wf(&self) -> bool {
        distinct_keys(self@)
    }

    pub fn new() -> (m: Self)
        ensures
            m@ == Seq::<(i32, V)>::empty(),
            m.wf(),
    {
        CidMap { pairs: Vec::new() }
    }

    pub fn len(&self) -> (n: usize)
        ensures
            n == self@.len(),
    {
        self.pairs.len()
    }

    /// Read access to the entry list, for iteration in insertion order.
    pub fn entries(&self) -> (r: &Vec<(i32, V)>)
        ensures
            r@ == self@,
    {
        &self.pairs
    }

    fn find(&self, k: i32) -> (r: usize)
        ensures
            r == if has_key(self@, k) { key_index(self@, k) } else { self@.len() as int },
    {
        let n = self.pairs.len();
        for i in 0..n
            invariant
                n == self@.len(),
                forall|j: int| 0 <= j < i ==> self@[j].0 != k,
        {
            if self.pairs[i].0 == k {
                proof {
                    lemma_key_index_is(self@, k, i as int);
                }
                return i;
            }
        }
        proof {
            lemma_key_index(self@, k);
            if has_key(self@, k) {
                assert(self@[key_index(self@, k)].0 == k);
            }
        }
        n
    }

    pub fn contains(&self, k: i32) -> (b: bool)
        ensures
            b == has_key(self@, k),
    {
        let i = self.find(k);
        proof {
            lemma_key_index(self@, k);
        }
        i < self.pairs.len()
    }

    pub fn get(&self, k: i32) -> (r: Option<&V>)
        ensures
            match r {
                Some(v) => value_of(self@, k) == Some(*v),
                None => value_of(self@, k) is None,
            },
    {
        let i = self.find(k);
        proof {
            lemma_key_index(self@, k);
        }
        if i < self.pairs.len() {
            Some(&self.pairs[i].1)
        } else {
            None
        }
    }

    pub fn insert(&mut self, k: i32, v: V)
        requires
            old(self).wf(),
        ensures
            final(self).wf(),
            final(self)@ == spec_insert(old(self)@, k, v),
    {
        let i = self.find(k);
        proof {
            lemma_key_index(self@, k);
            lemma_spec_insert(self@, k, v);
        }
        if i < self.pairs.len() {
            self.pairs.set(i, (k, v));
        } else {
            self.pairs.push((k, v));
        }
    }

    /// Append an entry whose key is known to be absent, keeping it last.
    pub fn push_entry(&mut self, k: i32, v: V)
        requires
            old(self).wf(),
            !has_key(old(self)@, k),
        ensures
            final(self).wf(),
            final(self)@ == old(self)@.push((k, v)),
    {
        proof {
            lemma_key_index(self@, k);
            let t = self@.push((k, v));
            assert forall|i: int, j: int| 0 <= i < j < t.len() implies t[i].0 != t[j].0 by {
                if j == t.len() - 1 {
                    assert(t[i] == self@[i]);
                }
            }
        }
        self.pairs.push((k, v));
    }

    /// Remove the entry under `k` and hand its value back.
    pub fn take(&mut self, k: i32) -> (r: Option<V>)
        requires
            old(self).wf(),
        ensures
            final(self).wf(),
            final(self)@ == spec_remove(old(self)@, k),
            r == value_of(old(self)@, k),
            !has_key(old(self)@, k) ==> *final(self) == *old(self),
    {
        let i = self.find(k);
        proof {
            lemma_key_index(self@, k);
            lemma_spec_remove(self@, k);
        }
        if i < self.pairs.len() {
            Some(self.pairs.remove(i).1)
        } else {
            None
        }
    }
}

} // verus!
