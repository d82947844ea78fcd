//! A small map from texts to numbers.

use crate::text::same_text;
use vstd::prelude::*;
use vstd::string::*;

verus! {

/// The entries in the order in which their keys came.
pub struct TextMap {
    entries: Vec<(String, u32)>,
}

spec fn has_key(entries: Seq<(String, u32)>, key: Seq<char>) -> bool {
    exists|i: int| 0 <= i < entries.len() && (#[trigger] entries[i]).0@ == key
}

spec fn position(entries: Seq<(String, u32)>, key: Seq<char>) -> int {
    choose|i: int| 0 <= i < entries.len() && (#[trigger] entries[i]).0@ == key
}

spec fn distinct(entries: Seq<(String, u32)>) -> bool {
    forall|i: int, j: int|
        0 <= i < j < entries.len() ==> (#[trigger] entries[i]).0@ != (#[trigger] entries[j]).0@
}

/// The number under a key.
pub open spec fn holds(m: Map<Seq<char>, u32>, key: Seq<char>, value: u32) -> bool {
    m.contains_key(key) && m[key] == value
}

/// Some key has the number.
pub open spec fn takes(m: Map<Seq<char>, u32>, value: u32) -> bool {
    exists|key: Seq<char>| #[trigger] holds(m, key, value)
}

impl View for TextMap {
    type V = Map<Seq<char>, u32>;

    closed spec fn view(&self) -> Map<Seq<char>, u32> {
        Map::new(
            |k: Seq<char>| has_key(self.entries@, k),
            |k: Seq<char>| self.entries@[position(self.entries@, k)].1,
        )
    }
}

impl TextMap {
    /// No key stands in two entries.
    pub closed spec fn wf(&self) -> bool {
        distinct(self.entries@)
    }

    /// Keys and numbers in the order in which the keys came.
    pub closed spec fn entries(&self) -> Seq<(Seq<char>, u32)> {
        Seq::new(self.entries@.len(), |i: int| (self.entries@[i].0@, self.entries@[i].1))
    }

    proof fn lemma_at(&self, i: int)
        requires
            distinct(self.entries@),
            0 <= i < self.entries@.len(),
        ensures
            self@.contains_key(self.entries@[i].0@),
            self@[self.entries@[i].0@] == self.entries@[i].1,
    {
        let k = self.entries@[i].0@;
        assert(has_key(self.entries@, k));
        let j = position(self.entries@, k);
        assert(0 <= j < self.entries@.len() && self.entries@[j].0@ == k);
    }

    /// The entries and the map say the same.
    pub proof fn lemma_entries(&self)
        requires
            self.wf(),
        ensures
            forall|i: int, j: int|
                0 <= i < j < self.entries().len() ==> (#[trigger] self.entries()[i]).0 != (
                #[trigger] self.entries()[j]).0,
            forall|i: int|
                0 <= i < self.entries().len() ==> holds(
                    self@,
                    (#[trigger] self.entries()[i]).0,
                    self.entries()[i].1,
                ),
            forall|k: Seq<char>| #[trigger]
                self@.contains_key(k) ==> self.entries().contains((k, self@[k])),
    {
        assert forall|i: int| 0 <= i < self.entries().len() implies holds(
            self@,
            (#[trigger] self.entries()[i]).0,
            self.entries()[i].1,
        ) by {
            self.lemma_at(i);
        }
        assert forall|k: Seq<char>| #[trigger] self@.contains_key(k) implies self.entries().contains((k, self@[k])) by {
            let i = position(self.entries@, k);
            assert(self.entries()[i] == (k, self@[k]));
        }
        assert forall|i: int, j: int| 0 <= i < j < self.entries().len() implies (#[trigger] self.entries()[i]).0 != (
        #[trigger] self.entries()[j]).0 by {
            assert(self.entries@[i].0@ != self.entries@[j].0@);
        }
    }

    pub fn new() -> (m: Self)
        ensures
            m.wf(),
            m@ == Map::<Seq<char>, u32>::empty(),
    {
        let m = Self { entries: Vec::new() };
        assert(m@ =~= Map::<Seq<char>, u32>::empty());
        m
    }

    pub fn len(&self) -> (n: usize)
        ensures
            n == self.entries().len(),
    {
        self.entries.len()
    }

    /// The key and the number of an entry.
    pub fn entry(&self, i: usize) -> (e: (&str, u32))
        requires
            i < self.entries().len(),
        ensures
            (e.0@, e.1) == self.entries()[i as int],
    {
        (self.entries[i].0.as_str(), self.entries[i].1)
    }

    fn find(&self, key: &str) -> (at: Option<usize>)
        ensures
            at is Some <==> has_key(self.entries@, key@),
            at matches Some(i) ==> i < self.entries@.len() && self.entries@[i as int].0@ == key@,
    {
        let mut i: usize = 0;
        while i < self.entries.len()
            invariant
                i <= self.entries@.len(),
                forall|j: int| 0 <= j < i ==> (#[trigger] self.entries@[j]).0@ != key@,
            decreases self.entries@.len() - i,
        {
            if same_text(self.entries[i].0.as_str(), key) {
                return Some(i);
            }
            i += 1;
        }
        None
    }

    /// The number under a key.
    pub fn get(&self, key: &str) -> (value: Option<u32>)
        requires
            self.wf(),
        ensures
            value is Some <==> self@.contains_key(key@),
            value matches Some(v) ==> v == self@[key@],
    {
        match self.find(key) {
            Some(i) => {
                proof {
                    self.lemma_at(i as int);
                }
                Some(self.entries[i].1)
            },
            None => None,
        }
    }

    /// Some key has the number.
    pub fn has_value(&self, value: u32) -> (has: bool)
        requires
            self.wf(),
        ensures
            has == takes(self@, value),
    {
        let mut i: usize = 0;
        while i < self.entries.len()
            invariant
                distinct(self.entries@),
                i <= self.entries@.len(),
                forall|j: int| 0 <= j < i ==> (#[trigger] self.entries@[j]).1 != value,
            decreases self.entries@.len() - i,
        {
            if self.entries[i].1 == value {
                proof {
                    self.lemma_at(i as int);
                    assert(holds(self@, self.entries@[i as int].0@, value));
                }
                return true;
            }
            i += 1;
        }
        proof {
            if takes(self@, value) {
                let key = choose|key: Seq<char>| #[trigger] holds(self@, key, value);
                self.lemma_at(position(self.entries@, key));
            }
        }
        false
    }

    /// Puts a number under a key; a number that was there before is replaced.
    pub fn insert(&mut self, key: &str, value: u32)
        requires
            old(self).wf(),
        ensures
            final(self).wf(),
            final(self)@ == old(self)@.insert(key@, value),
    {
        let ghost before = *self;
        let at: Option<usize> = self.find(key);
        match at {
            Some(i) => {
                self.entries[i] = (key.to_owned(), value);
            },
            None => {
                self.entries.push((key.to_owned(), value));
            },
        }
        proof {
            let m = *self;
            assert forall|i: int, j: int| 0 <= i < j < m.entries@.len() implies (#[trigger] m.entries@[i]).0@ != (
            #[trigger] m.entries@[j]).0@ by {}
            assert forall|k: Seq<char>| m@.contains_key(k) <==> before@.insert(key@, value).contains_key(k) by {
                if has_key(m.entries@, k) {
                    let i = position(m.entries@, k);
                    if i < before.entries@.len() {
                        assert(before.entries@[i].0@ == k);
                    }
                }
                if has_key(before.entries@, k) {
                    let i = position(before.entries@, k);
                    assert(m.entries@[i].0@ == k);
                }
                match at {
                    Some(i) => {
                        assert(m.entries@[i as int].0@ == key@);
                    },
                    None => {
                        assert(m.entries@[before.entries@.len() as int].0@ == key@);
                    },
                }
            }
            assert forall|k: Seq<char>| m@.contains_key(k) implies m@[k] == before@.insert(key@, value)[k] by {
                let i = position(m.entries@, k);
                m.lemma_at(i);
                if i < before.entries@.len() {
                    before.lemma_at(i);
                }
            }
            assert(m@ =~= before@.insert(key@, value));
        }
    }
}

} // verus!
