//! Association map from a player name to a value, the name compared by
//! its characters.
//!
//! Entries keep their insertion order, so iterating over them is
//! deterministic; keys are unique whenever `wf()` holds.

use vstd::prelude::*;

verus! {

/// Index of the first entry whose key reads `k`, or `-1` if none does.
pub open spec fn name_index<V>(s: Seq<(String, V)>, k: Seq<char>) -> int
    decreases s.len(),
{
    if s.len() == 0 {
        -1
    } else if s[0].0@ == k {
        0
    } else if name_index(s.drop_first(), k) < 0 {
        -1
    } else {
        name_index(s.drop_first(), k) + 1
    }
}

pub open spec fn has_name<V>(s: Seq<(String, V)>, k: Seq<char>) -> bool {
    name_index(s, k) >= 0
}

/// The value stored under the name `k`, if any.
pub open spec fn value_of_name<V>(s: Seq<(String, V)>, k: Seq<char>) -> Option<V> {
    if has_name(s, k) {
        Some(s[name_index(s, k)].1)
    } else {
        None
    }
}

pub open spec fn distinct_names<V>(s: Seq<(String, V)>) -> bool {
    forall|i: int, j: int| 0 <= i < j < s.len() ==> s[i].0@ != s[j].0@
}

pub proof fn lemma_name_index<V>(s: Seq<(String, V)>, k: Seq<char>)
    ensures
        -1 <= name_index(s, k) < s.len(),
        name_index(s, k) >= 0 ==> s[name_index(s, k)].0@ == k,
        forall|i: int| 0 <= i < name_index(s, k) ==> s[i].0@ != k,
        name_index(s, k) == -1 ==> forall|i: int| 0 <= i < s.len() ==> s[i].0@ != k,
    decreases s.len(),
{
    if s.len() > 0 && s[0].0@ != k {
        lemma_name_index(s.drop_first(), k);
        assert forall|i: int| 0 <= i < name_index(s, k) implies s[i].0@ != k by {
            if i > 0 {
                assert(s.drop_first()[i - 1] == s[i]);
            }
        }
        if name_index(s.drop_first(), k) == -1 {
            assert forall|i: int| 0 <= i < s.len() implies s[i].0@ != k by {
                if i > 0 {
                    assert(s.drop_first()[i - 1] == s[i]);
                }
            }
        }
    }
}

/// With a match at `i` and no match before it, `i` is the name's index.
pub proof fn lemma_name_index_is<V>(s: Seq<(String, V)>, k: Seq<char>, i: int)
    requires
        0 <= i < s.len(),
        s[i].0@ == k,
        forall|j: int| 0 <= j < i ==> s[j].0@ != k,
    ensures
        name_index(s, k) == i,
{
    lemma_name_index(s, k);
    if name_index(s, k) < i {
        assert(s[name_index(s, k)].0@ == k);
    }
}

/// Under distinct names, every entry is found at its own index.
pub proof fn lemma_name_found<V>(s: Seq<(String, V)>, i: int)
    requires
        distinct_names(s),
        0 <= i < s.len(),
    ensures
        name_index(s, s[i].0@) == i,
        value_of_name(s, s[i].0@) == Some(s[i].1),
{
    lemma_name_index_is(s, s[i].0@, i);
}

/// Removing one entry leaves every other name's lookup unchanged.
pub proof fn lemma_remove_other<V>(s: Seq<(String, V)>, i: int, n: Seq<char>)
    requires
        distinct_names(s),
        0 <= i < s.len(),
        s[i].0@ != n,
    ensures
        value_of_name(s.remove(i), n) == value_of_name(s, n),
        distinct_names(s.remove(i)),
{
    let t = s.remove(i);
    lemma_name_index(s, n);
    lemma_name_index(t, n);
    assert forall|a: int, b: int| 0 <= a < b < t.len() implies t[a].0@ != t[b].0@ by {
        if a < i {
            assert(t[a] == s[a]);
        } else {
            assert(t[a] == s[a + 1]);
        }
        if b < i {
            assert(t[b] == s[b]);
        } else {
            assert(t[b] == s[b + 1]);
        }
    }
    if has_name(s, n) {
        let j = name_index(s, n);
        assert(j != i);
        if j < i {
            assert(t[j] == s[j]);
            assert forall|m: int| 0 <= m < j implies t[m].0@ != n by {
                assert(t[m] == s[m]);
            }
            lemma_name_index_is(t, n, j);
        } else {
            assert(t[j - 1] == s[j]);
            assert forall|m: int| 0 <= m < j - 1 implies t[m].0@ != n by {
                if m < i {
                    assert(t[m] == s[m]);
                } else {
                    assert(t[m] == s[m + 1]);
                }
            }
            lemma_name_index_is(t, n, j - 1);
        }
    } else {
        if has_name(t, n) {
            let j = name_index(t, n);
            assert(t[j].0@ == n);
            if j < i {
                assert(t[j] == s[j]);
            } else {
                assert(t[j] == s[j + 1]);
            }
        }
    }
}

/// Two entry lists with the same names in the same places index alike.
pub proof fn lemma_name_index_same_keys<V, W>(
    s1: Seq<(String, V)>,
    s2: Seq<(String, W)>,
    k: Seq<char>,
)
    requires
        s1.len() == s2.len(),
        forall|i: int| 0 <= i < s1.len() ==> (#[trigger] s1[i]).0@ == s2[i].0@,
    ensures
        name_index(s1, k) == name_index(s2, k),
    decreases s1.len(),
{
    if s1.len() > 0 {
        assert(s1[0].0@ == s2[0].0@);
        assert forall|i: int| 0 <= i < s1.drop_first().len() implies (#[trigger] s1.drop_first()[i]).0@
            == s2.drop_first()[i].0@ by {
            assert(s1.drop_first()[i] == s1[i + 1] && s2.drop_first()[i] == s2[i + 1]);
        }
        lemma_name_index_same_keys(s1.drop_first(), s2.drop_first(), k);
    }
}

/// Association map from a player name to a value, in insertion order.
pub struct NameMap<V> {
    pairs: Vec<(String, V)>,
}

impl<V> View for NameMap<V> {
    type V = Seq<(String, V)>;

    closed spec fn view(&self) -> Seq<(String, V)> {
        self.pairs@
    }
}

impl<V> NameMap<V> {
    pub open spec fn wf(&self) -> bool {
        distinct_names(self@)
    }

    pub fn new() -> (m: Self)
        ensures
            m@ == Seq::<(String, V)>::empty(),
            m.wf(),
    {
        NameMap { pairs: Vec::new() }
    }

    pub fn len(&self) -> (n: usize)
        ensures
            n == self@.len(),
    {
        self.pairs.len()
    }

    /// Read access to the entry list, for iteration in insertion order.
    pub fn entries(&self) -> (r: &Vec<(String, V)>)
        ensures
            r@ == self@,
    {
        &self.pairs
    }

    fn find(&self, k: &String) -> (r: usize)
        ensures
            r == if has_name(self@, k@) {
                name_index(self@, k@)
            } else {
                self@.len() as int
            },
    {
        let n = self.pairs.len();
        for i in 0..n
            invariant
                n == self@.len(),
                forall|j: int| 0 <= j < i ==> self@[j].0@ != k@,
        {
            if k.eq(&self.pairs[i].0) {
                proof {
                    lemma_name_index_is(self@, k@, i as int);
                }
                return i;
            }
        }
        proof {
            lemma_name_index(self@, k@);
            if has_name(self@, k@) {
                assert(self@[name_index(self@, k@)].0@ == k@);
            }
        }
        n
    }

    pub fn contains(&self, k: &String) -> (b: bool)
        ensures
            b == has_name(self@, k@),
    {
        let i = self.find(k);
        proof {
            lemma_name_index(self@, k@);
        }
        i < self.pairs.len()
    }

    pub fn get(&self, k: &String) -> (r: Option<&V>)
        ensures
            match r {
                Some(v) => value_of_name(self@, k@) == Some(*v),
                None => value_of_name(self@, k@) is None,
            },
    {
        let i = self.find(k);
        proof {
            lemma_name_index(self@, k@);
        }
        if i < self.pairs.len() {
            Some(&self.pairs[i].1)
        } else {
            None
        }
    }

    /// Store `v` under `k`: an existing entry is overwritten in place, a
    /// new name is appended at the end.
    pub fn insert(&mut self, k: String, v: V)
        requires
            old(self).wf(),
        ensures
            final(self).wf(),
            final(self)@ == (if has_name(old(self)@, k@) {
                old(self)@.update(name_index(old(self)@, k@), (k, v))
            } else {
                old(self)@.push((k, v))
            }),
            value_of_name(final(self)@, k@) == Some(v),
            forall|k2: Seq<char>| k2 != k@ ==> value_of_name(final(self)@, k2) == value_of_name(
                old(self)@,
                k2,
            ),
            final(self)@.len() == if has_name(old(self)@, k@) {
                old(self)@.len()
            } else {
                old(self)@.len() + 1
            },
    {
        let i = self.find(&k);
        proof {
            lemma_name_index(self@, k@);
        }
        let ghost s0 = self@;
        if i < self.pairs.len() {
            self.pairs.set(i, (k, v));
        } else {
            self.pairs.push((k, v));
        }
        proof {
            let t = self@;
            let ki = if has_name(s0, k@) { name_index(s0, k@) } else { s0.len() as int };
            assert(t[ki].0@ == k@);
            assert forall|j: int| 0 <= j < ki implies t[j].0@ != k@ by {
                assert(t[j] == s0[j]);
            }
            lemma_name_index_is(t, k@, ki);
            assert forall|i2: int, j2: int| 0 <= i2 < j2 < t.len() implies t[i2].0@ != t[j2].0@
                by {
                if i2 != ki && j2 != ki {
                    assert(t[i2] == s0[i2] && t[j2] == s0[j2]);
                } else if i2 == ki {
                    assert(t[j2] == s0[j2]);
                    if has_name(s0, k@) {
                        assert(s0[ki].0@ == k@);
                    }
                } else {
                    assert(t[i2] == s0[i2]);
                    if has_name(s0, k@) {
                        assert(s0[ki].0@ == k@);
                    }
                }
            }
            assert forall|k2: Seq<char>| k2 != k@ implies value_of_name(t, k2) == value_of_name(
                s0,
                k2,
            ) by {
                lemma_name_index(s0, k2);
                lemma_name_index(t, k2);
                if has_name(s0, k2) {
                    let j = name_index(s0, k2);
                    assert(t[j] == s0[j]);
                    assert forall|m: int| 0 <= m < j implies t[m].0@ != k2 by {
                        if m != ki {
                            assert(t[m] == s0[m]);
                        }
                    }
                    lemma_name_index_is(t, k2, j);
                } else {
                    if has_name(t, k2) {
                        let j = name_index(t, k2);
                        assert(t[j].0@ == k2);
                        if j != ki {
                            assert(t[j] == s0[j]);
                        }
                    }
                }
            }
        }
    }
}

impl<V: Copy> NameMap<V> {
    /// A deep copy of the map; names are cloned, values are copied.
    pub fn duplicate(&self) -> (m: Self)
        ensures
            m@ == self@,
    {
        let mut pairs: Vec<(String, V)> = Vec::new();
        let n = self.pairs.len();
        for i in 0..n
            invariant
                n == self.pairs@.len(),
                pairs@.len() == i,
                forall|j: int| 0 <= j < i ==> pairs@[j] == self.pairs@[j],
        {
            let entry = &self.pairs[i];
            pairs.push((entry.0.clone(), entry.1));
        }
        proof {
            assert(pairs@ =~= self.pairs@);
        }
        NameMap { pairs }
    }
}

} // verus!
