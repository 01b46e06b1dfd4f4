//! A small insertion-ordered map keyed by strings.

use vstd::prelude::*;

verus! {

/// An insertion-ordered association list with string keys, no key twice.
#[derive(Debug)]
pub struct KeyedList<V> {
    entries: Vec<(String, V)>,
}

/// Position of the first entry of `entries` whose key is `key`, or the
/// length of `entries` when no entry has that key.
pub open spec fn position_of<V>(entries: Seq<(String, V)>, key: Seq<char>) -> int
    decreases entries.len(),
{
    if entries.len() == 0 {
        0
    } else if entries[0].0@ == key {
        0
    } else {
        1 + position_of(entries.skip(1), key)
    }
}

/// The keys of `entries` are pairwise different.
pub open spec fn distinct_keys<V>(entries: Seq<(String, V)>) -> bool {
    forall|i: int, j: int|
        0 <= i < j < entries.len() ==> (#[trigger] entries[i]).0@ != (#[trigger] entries[j]).0@
}

/// `position_of` lies within the list or at its end, points at an entry with
/// the key when it lies within, and no entry before it has the key.
pub proof fn lemma_position_of<V>(entries: Seq<(String, V)>, key: Seq<char>)
    ensures
        0 <= position_of(entries, key) <= entries.len(),
        position_of(entries, key) < entries.len() ==> entries[position_of(entries, key)].0@ == key,
        forall|i: int| 0 <= i < position_of(entries, key) ==> (#[trigger] entries[i]).0@ != key,
    decreases entries.len(),
{
    if entries.len() != 0 && entries[0].0@ != key {
        let rest = entries.skip(1);
        lemma_position_of(rest, key);
        let p = position_of(rest, key);
        assert forall|i: int| 0 <= i < p + 1 implies (#[trigger] entries[i]).0@ != key by {
            if i > 0 {
                assert(rest[i - 1] == entries[i]);
            }
        }
    }
}

/// `position_of` is the only index that is preceded by no entry with the key
/// and either holds the key or is the length.
pub proof fn lemma_position_unique<V>(entries: Seq<(String, V)>, key: Seq<char>, p: int)
    requires
        0 <= p <= entries.len(),
        p < entries.len() ==> entries[p].0@ == key,
        forall|i: int| 0 <= i < p ==> (#[trigger] entries[i]).0@ != key,
    ensures
        position_of(entries, key) == p,
{
    lemma_position_of(entries, key);
}

/// The keys of `entries`.
pub open spec fn key_set<V>(entries: Seq<(String, V)>) -> Set<Seq<char>> {
    Set::new(|k: Seq<char>| position_of(entries, k) < entries.len())
}

/// Entries with pairwise different keys have as many keys as entries.
pub proof fn lemma_key_count<V>(entries: Seq<(String, V)>)
    requires
        distinct_keys(entries),
    ensures
        key_set(entries).finite(),
        key_set(entries).len() == entries.len(),
    decreases entries.len(),
{
    if entries.len() == 0 {
        assert(key_set(entries) =~= Set::<Seq<char>>::empty());
    } else {
        let front = entries.drop_last();
        let last = entries.last().0@;
        assert forall|i: int, j: int| 0 <= i < j < front.len() implies (#[trigger] front[i]).0@ != (
        #[trigger] front[j]).0@ by {
            assert(entries[i].0@ != entries[j].0@);
        }
        lemma_key_count(front);
        assert forall|k: Seq<char>| key_set(entries).contains(k) <==> key_set(front).insert(
            last,
        ).contains(k) by {
            lemma_position_of(entries, k);
            lemma_position_of(front, k);
            let p = position_of(entries, k);
            let q = position_of(front, k);
            if q < front.len() {
                assert(entries[q].0@ == k);
                if p == entries.len() {
                    assert(entries[q].0@ != k);
                }
            } else if k == last {
                if p == entries.len() {
                    assert(entries[entries.len() - 1].0@ != k);
                }
            } else {
                if p < entries.len() {
                    if p < front.len() {
                        assert(front[p].0@ != k);
                    }
                }
            }
        }
        assert(key_set(entries) =~= key_set(front).insert(last));
        lemma_position_of(front, last);
        if position_of(front, last) < front.len() {
            let q = position_of(front, last);
            assert(entries[q].0@ != entries[entries.len() - 1].0@);
        }
    }
}

impl<V> KeyedList<V> {
    /// No key occurs twice.
    pub closed spec fn wf(&self) -> bool {
        distinct_keys(self.entries@)
    }

    /// The entries in insertion order.
    pub closed spec fn entries(&self) -> Seq<(String, V)> {
        self.entries@
    }

    /// Whether some entry has the key `key`.
    pub open spec fn has_key(&self, key: Seq<char>) -> bool {
        position_of(self.entries(), key) < self.entries().len()
    }

    /// The value stored under `key`; meaningful when `has_key(key)`.
    pub open spec fn value_of(&self, key: Seq<char>) -> V {
        self.entries()[position_of(self.entries(), key)].1
    }

    /// The map from keys to values that the list stands for.
    pub open spec fn view(&self) -> Map<Seq<char>, V> {
        Map::new(|k: Seq<char>| self.has_key(k), |k: Seq<char>| self.value_of(k))
    }

    /// With no key twice, the map has as many keys as the list has entries.
    pub proof fn lemma_len(&self)
        requires
            self.wf(),
        ensures
            self@.dom().finite(),
            self@.dom().len() == self.entries().len(),
    {
        lemma_key_count(self.entries@);
        assert(self@.dom() =~= key_set(self.entries@));
    }

    /// An empty list.
    pub fn new() -> (r: Self)
        ensures
            r.wf(),
            r.entries() == Seq::<(String, V)>::empty(),
            r@ == Map::<Seq<char>, V>::empty(),
    {
        let r = KeyedList { entries: Vec::new() };
        assert(r@ =~= Map::<Seq<char>, V>::empty());
        r
    }

    /// Number of entries.
    pub fn len(&self) -> (n: usize)
        ensures
            n == self.entries().len(),
            self.wf() ==> n == self@.len(),
    {
        proof {
            if self.wf() {
                self.lemma_len();
            }
        }
        self.entries.len()
    }

    /// Index of the entry with key `key`, if there is one.
    pub fn find(&self, key: &String) -> (r: Option<usize>)
        ensures
            r is Some <==> self.has_key(key@),
            r is Some ==> r->0 == position_of(self.entries(), key@),
    {
        let n = self.entries.len();
        let mut i: usize = 0;
        proof {
            lemma_position_of(self.entries@, key@);
        }
        while i < n
            invariant
                n == self.entries@.len(),
                0 <= i <= n,
                i <= position_of(self.entries@, key@),
                forall|j: int| 0 <= j < i ==> (#[trigger] self.entries@[j]).0@ != key@,
            decreases n - i,
        {
            if self.entries[i].0 == *key {
                proof {
                    lemma_position_of(self.entries@, key@);
                }
                return Some(i);
            }
            i += 1;
            proof {
                lemma_position_of(self.entries@, key@);
            }
        }
        None
    }

    /// Whether an entry with key `key` exists.
    pub fn contains_key(&self, key: &String) -> (r: bool)
        ensures
            r == self@.contains_key(key@),
    {
        self.find(key).is_some()
    }

    /// The value stored under `key`.
    pub fn get(&self, key: &String) -> (r: Option<&V>)
        ensures
            r is Some <==> self@.contains_key(key@),
            r is Some ==> *r->0 == self@[key@],
    {
        match self.find(key) {
            Some(i) => Some(&self.entries[i].1),
            None => None,
        }
    }

    /// The key of the entry at position `i`.
    pub fn key_at(&self, i: usize) -> (k: &String)
        requires
            i < self.entries().len(),
        ensures
            *k == self.entries()[i as int].0,
            self@.contains_key(k@),
    {
        proof {
            lemma_position_of(self.entries@, self.entries@[i as int].0@);
        }
        &self.entries[i].0
    }

    /// The value of the entry at position `i`.
    pub fn value_at(&self, i: usize) -> (v: &V)
        requires
            i < self.entries().len(),
        ensures
            *v == self.entries()[i as int].1,
            self.wf() ==> *v == self@[self.entries()[i as int].0@],
    {
        proof {
            if self.wf() {
                lemma_position_unique(self.entries@, self.entries@[i as int].0@, i as int);
            }
        }
        &self.entries[i].1
    }

    /// Stores `value` under `key`. A value already stored under `key` is
    /// replaced and keeps its position; a new key goes to the end.
    pub fn insert(&mut self, key: String, value: V)
        ensures
            old(self).wf() ==> final(self).wf(),
            final(self)@ == old(self)@.insert(key@, value),
            old(self)@.contains_key(key@) ==> final(self).entries() == old(self).entries().update(
                position_of(old(self).entries(), key@),
                (key, value),
            ),
            !old(self)@.contains_key(key@) ==> final(self).entries() == old(self).entries().push(
                (key, value),
            ),
    {
        let ghost before = self.entries@;
        let ghost kv = key@;
        let found = self.find(&key);
        proof {
            lemma_position_of(before, kv);
        }
        match found {
            Some(i) => {
                self.entries.set(i, (key, value));
            },
            None => {
                self.entries.push((key, value));
            },
        }
        proof {
            let after = self.entries@;
            let at = position_of(before, kv);
            assert(after[at].0@ == kv && after[at].1 == value);
            assert forall|j: int| 0 <= j < before.len() && j != at implies after[j] == before[j] by {}
            assert forall|k: Seq<char>|
                position_of(after, k) == (if k == kv {
                    at
                } else if position_of(before, k) < before.len() {
                    position_of(before, k)
                } else {
                    after.len() as int
                }) by {
                lemma_position_of(before, k);
                let p = if k == kv {
                    at
                } else if position_of(before, k) < before.len() {
                    position_of(before, k)
                } else {
                    after.len() as int
                };
                assert forall|j: int| 0 <= j < p implies (#[trigger] after[j]).0@ != k by {
                    if j < before.len() {
                        assert(before[j].0@ != k);
                    }
                }
                lemma_position_unique(after, k, p);
            }
            let m1 = final(self)@;
            let m0 = old(self)@.insert(kv, value);
            assert forall|k: Seq<char>| m1.contains_key(k) == m0.contains_key(k) && (m1.contains_key(
                k,
            ) ==> m1[k] == m0[k]) by {
                lemma_position_of(before, k);
                assert(position_of(after, k) == (if k == kv {
                    at
                } else if position_of(before, k) < before.len() {
                    position_of(before, k)
                } else {
                    after.len() as int
                }));
            }
            assert(m1 =~= m0);
            assert forall|a: int, b: int|
                old(self).wf() && 0 <= a < b < after.len() implies (#[trigger] after[a]).0@ != (
            #[trigger] after[b]).0@ by {
                if a < before.len() && b < before.len() {
                    assert(before[a].0@ != before[b].0@);
                    assert(a != at ==> after[a] == before[a]);
                    assert(b != at ==> after[b] == before[b]);
                } else {
                    assert(before[a].0@ != kv);
                }
            }
        }
    }
}

impl<V: Copy> Clone for KeyedList<V> {
    /// A copy with the same entries in the same order.
    fn clone(&self) -> (r: Self)
        ensures
            r.entries() == self.entries(),
            r@ == self@,
            r.wf() == self.wf(),
    {
        let n = self.entries.len();
        let mut entries: Vec<(String, V)> = Vec::new();
        let mut i: usize = 0;
        while i < n
            invariant
                n == self.entries@.len(),
                0 <= i <= n,
                entries@ == self.entries@.take(i as int),
            decreases n - i,
        {
            let key = self.entries[i].0.clone();
            let value = self.entries[i].1;
            entries.push((key, value));
            proof {
                assert(entries@ =~= self.entries@.take(i as int + 1));
            }
            i += 1;
        }
        proof {
            assert(self.entries@.take(n as int) =~= self.entries@);
        }
        KeyedList { entries }
    }
}

} // verus!
