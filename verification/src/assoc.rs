//! A small map in a list.

use vstd::prelude::*;

verus! {

/// A key that can be compared.
pub trait Key: View + Copy {
    fn same_key(&self, other: &Self) -> (same: bool)
        ensures
            same == (self@ == other@),
    ;
}

/// A map that holds few entries, in the order in which their keys came.
pub struct AssocList<K: Key, T> {
    entries: Vec<(K, T)>,
}

/// An entry has the key.
pub open spec fn held_at<K: Key, T>(entries: Seq<(K, T)>, key: K::V, i: int) -> bool {
    0 <= i < entries.len() && entries[i].0@ == key
}

/// The entries by their keys.
pub open spec fn by_key<K: Key, T>(entries: Seq<(K, T)>) -> Map<K::V, T> {
    Map::new(
        |key: K::V| exists|i: int| held_at(entries, key, i),
        |key: K::V| entries[choose|i: int| held_at(entries, key, i)].1,
    )
}

/// No two entries have the same key.
pub open spec fn unique<K: Key, T>(entries: Seq<(K, T)>) -> bool {
    forall|i: int, j: int|
        0 <= i < j < entries.len() ==> (#[trigger] entries[i]).0@ != (#[trigger] entries[j]).0@
}

proof fn lemma_at<K: Key, T>(entries: Seq<(K, T)>, i: int)
    requires
        unique(entries),
        0 <= i < entries.len(),
    ensures
        by_key(entries).contains_key(entries[i].0@),
        by_key(entries)[entries[i].0@] == entries[i].1,
{
    let key = entries[i].0@;
    assert(held_at(entries, key, i));
    let j = choose|j: int| held_at(entries, key, j);
    assert(entries[j].0@ == entries[i].0@);
}

proof fn lemma_of<K: Key, T>(entries: Seq<(K, T)>, key: K::V) -> (i: int)
    requires
        by_key(entries).contains_key(key),
    ensures
        0 <= i < entries.len(),
        entries[i].0@ == key,
{
    choose|i: int| held_at(entries, key, i)
}

proof fn lemma_pushed<K: Key, T>(entries: Seq<(K, T)>, key: K, value: T)
    requires
        unique(entries),
        !by_key(entries).contains_key(key@),
    ensures
        unique(entries.push((key, value))),
        by_key(entries.push((key, value))) == by_key(entries).insert(key@, value),
{
    let after = entries.push((key, value));
    assert(unique(after)) by {
        assert forall|i: int, j: int| 0 <= i < j < after.len() implies (#[trigger] after[i]).0@ != (
        #[trigger] after[j]).0@ by {
            if j == entries.len() {
                assert(entries[i] == after[i]);
                lemma_at(entries, i);
            }
        }
    }
    assert forall|k: K::V| #[trigger] by_key(after).contains_key(k) <==> by_key(entries).insert(
        key@,
        value,
    ).contains_key(k) by {
        if by_key(after).contains_key(k) {
            let i = lemma_of(after, k);
            if i < entries.len() {
                lemma_at(entries, i);
            }
        }
        if k == key@ {
            lemma_at(after, entries.len() as int);
        } else if by_key(entries).contains_key(k) {
            let i = lemma_of(entries, k);
            assert(after[i] == entries[i]);
            lemma_at(after, i);
        }
    }
    assert forall|k: K::V| by_key(after).contains_key(k) implies #[trigger] by_key(after)[k]
        == by_key(entries).insert(key@, value)[k] by {
        let i = lemma_of(after, k);
        lemma_at(after, i);
        if i < entries.len() {
            assert(after[i] == entries[i]);
            lemma_at(entries, i);
        }
    }
    assert(by_key(after) =~= by_key(entries).insert(key@, value));
}

proof fn lemma_updated<K: Key, T>(entries: Seq<(K, T)>, at: int, key: K, value: T)
    requires
        unique(entries),
        0 <= at < entries.len(),
        entries[at].0@ == key@,
    ensures
        unique(entries.update(at, (key, value))),
        by_key(entries.update(at, (key, value))) == by_key(entries).insert(key@, value),
{
    let after = entries.update(at, (key, value));
    assert(unique(after)) by {
        assert forall|i: int, j: int| 0 <= i < j < after.len() implies (#[trigger] after[i]).0@ != (
        #[trigger] after[j]).0@ by {
            assert(after[i].0@ == entries[i].0@ && after[j].0@ == entries[j].0@);
        }
    }
    assert forall|k: K::V| #[trigger] by_key(after).contains_key(k) <==> by_key(entries).insert(
        key@,
        value,
    ).contains_key(k) by {
        if by_key(after).contains_key(k) {
            let i = lemma_of(after, k);
            assert(entries[i].0@ == k);
            lemma_at(entries, i);
        }
        if by_key(entries).contains_key(k) {
            let i = lemma_of(entries, k);
            assert(after[i].0@ == k);
            lemma_at(after, i);
        }
        if k == key@ {
            lemma_at(after, at);
        }
    }
    assert forall|k: K::V| by_key(after).contains_key(k) implies #[trigger] by_key(after)[k]
        == by_key(entries).insert(key@, value)[k] by {
        let i = lemma_of(after, k);
        lemma_at(after, i);
        lemma_at(entries, i);
        if i != at {
            assert(entries[i].0@ != key@);
        }
    }
    assert(by_key(after) =~= by_key(entries).insert(key@, value));
}

proof fn lemma_removed<K: Key, T>(entries: Seq<(K, T)>, at: int)
    requires
        unique(entries),
        0 <= at < entries.len(),
    ensures
        unique(entries.remove(at)),
        by_key(entries.remove(at)) == by_key(entries).remove(entries[at].0@),
{
    let after = entries.remove(at);
    let key = entries[at].0@;
    assert forall|i: int| 0 <= i < after.len() implies #[trigger] after[i] == entries[if i < at {
        i
    } else {
        i + 1
    }] by {}
    assert(unique(after)) by {
        assert forall|i: int, j: int| 0 <= i < j < after.len() implies (#[trigger] after[i]).0@ != (
        #[trigger] after[j]).0@ by {}
    }
    assert forall|k: K::V| #[trigger] by_key(after).contains_key(k) <==> by_key(entries).remove(
        key,
    ).contains_key(k) by {
        if by_key(after).contains_key(k) {
            let i = lemma_of(after, k);
            let j = if i < at {
                i
            } else {
                i + 1
            };
            assert(entries[j].0@ == k);
            lemma_at(entries, j);
        }
        if by_key(entries).contains_key(k) && k != key {
            let j = lemma_of(entries, k);
            let i = if j < at {
                j
            } else {
                j - 1
            };
            assert(after[i] == entries[j]);
            lemma_at(after, i);
        }
    }
    assert forall|k: K::V| by_key(after).contains_key(k) implies #[trigger] by_key(after)[k]
        == by_key(entries).remove(key)[k] by {
        let i = lemma_of(after, k);
        lemma_at(after, i);
        lemma_at(
            entries,
            if i < at {
                i
            } else {
                i + 1
            },
        );
    }
    assert(by_key(after) =~= by_key(entries).remove(key));
}

impl<K: Key, T> View for AssocList<K, T> {
    type V = Map<K::V, T>;

    closed spec fn view(&self) -> Map<K::V, T> {
        by_key(self.entries@)
    }
}

impl<K: Key, T> AssocList<K, T> {
    #[verifier::type_invariant]
    spec fn wf(self) -> bool {
        unique(self.entries@)
    }

    /// The keys in the order in which they are listed.
    pub closed spec fn keys(&self) -> Seq<K::V> {
        self.entries@.map_values(|e: (K, T)| e.0@)
    }

    pub fn new() -> (list: Self)
        ensures
            list@ == Map::<K::V, T>::empty(),
    {
        let entries: Vec<(K, T)> = Vec::new();
        assert(by_key(entries@) =~= Map::<K::V, T>::empty()) by {
            assert forall|k: K::V| !by_key(entries@).contains_key(k) by {
                if by_key(entries@).contains_key(k) {
                    let i = lemma_of(entries@, k);
                }
            }
        }
        AssocList { entries }
    }

    fn find(&self, key: &K) -> (at: Option<usize>)
        ensures
            at is Some <==> self@.contains_key(key@),
            at matches Some(i) ==> i < self.entries@.len() && self.entries@[i as int].0@ == key@
                && self.entries@[i as int].1 == self@[key@],
    {
        proof {
            use_type_invariant(self);
        }
        let mut i: usize = 0;
        while i < self.entries.len()
            invariant
                unique(self.entries@),
                i <= self.entries@.len(),
                forall|k: int| 0 <= k < i ==> (#[trigger] self.entries@[k]).0@ != key@,
            decreases self.entries@.len() - i,
        {
            if self.entries[i].0.same_key(key) {
                proof {
                    lemma_at(self.entries@, i as int);
                }
                return Some(i);
            }
            i += 1;
        }
        proof {
            if self@.contains_key(key@) {
                let j = lemma_of(self.entries@, key@);
            }
        }
        None
    }

    pub fn get(&self, key: &K) -> (value: Option<&T>)
        ensures
            value is Some <==> self@.contains_key(key@),
            value matches Some(v) ==> *v == self@[key@],
    {
        match self.find(key) {
            Some(i) => Some(&self.entries[i].1),
            None => None,
        }
    }

    pub fn contains(&self, key: &K) -> (is: bool)
        ensures
            is == self@.contains_key(key@),
    {
        self.find(key).is_some()
    }

    pub fn insert(&mut self, key: K, value: T)
        ensures
            final(self)@ == old(self)@.insert(key@, value),
    {
        proof {
            use_type_invariant(&*self);
        }
        let at = self.find(&key);
        let mut entries: Vec<(K, T)> = Vec::new();
        std::mem::swap(&mut entries, &mut self.entries);
        let ghost before = entries@;
        match at {
            Some(i) => {
                proof {
                    lemma_updated(before, i as int, key, value);
                }
                entries.set(i, (key, value));
            },
            None => {
                proof {
                    lemma_pushed(before, key, value);
                }
                entries.push((key, value));
            },
        }
        self.entries = entries;
    }

    pub fn remove(&mut self, key: &K)
        ensures
            final(self)@ == old(self)@.remove(key@),
    {
        proof {
            use_type_invariant(&*self);
        }
        let at = self.find(key);
        let mut entries: Vec<(K, T)> = Vec::new();
        std::mem::swap(&mut entries, &mut self.entries);
        match at {
            Some(i) => {
                proof {
                    lemma_removed(entries@, i as int);
                }
                let _gone = entries.remove(i);
            },
            None => {
                assert(by_key(entries@).remove(key@) =~= by_key(entries@));
            },
        }
        self.entries = entries;
    }

    pub fn len(&self) -> (len: usize)
        ensures
            len == self.keys().len(),
            self.keys().no_duplicates(),
            self.keys().to_set() == self@.dom(),
            self@.dom().finite(),
            len == self@.dom().len(),
    {
        proof {
            use_type_invariant(self);
            self.lemma_keys();
        }
        self.entries.len()
    }

    /// The key at a place of the list.
    pub fn key_at(&self, i: usize) -> (key: K)
        requires
            i < self.keys().len(),
        ensures
            key@ == self.keys()[i as int],
    {
        self.entries[i].0
    }

    /// The list holds every key once.
    proof fn lemma_keys(&self)
        requires
            unique(self.entries@),
        ensures
            self.keys().no_duplicates(),
            self.keys().to_set() == self@.dom(),
            self@.dom().finite(),
            self@.dom().len() == self.keys().len(),
    {
        let keys = self.keys();
        assert(keys.no_duplicates()) by {
            assert forall|i: int, j: int| 0 <= i < j < keys.len() implies keys[i] != keys[j] by {
                assert(self.entries@[i].0@ != self.entries@[j].0@);
            }
        }
        assert forall|k: K::V| keys.to_set().contains(k) <==> self@.dom().contains(k) by {
            if keys.contains(k) {
                let i = choose|i: int| 0 <= i < keys.len() && keys[i] == k;
                lemma_at(self.entries@, i);
            }
            if self@.contains_key(k) {
                let i = lemma_of(self.entries@, k);
                assert(keys[i] == k);
            }
        }
        assert(keys.to_set() =~= self@.dom());
        keys.unique_seq_to_set();
        vstd::seq_lib::seq_to_set_is_finite(keys);
    }
}

} // verus!
