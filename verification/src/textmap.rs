//! A map with texts as keys, kept as a list in the order of insertion.

use crate::text::{holds_text, text_eq, views};
use vstd::prelude::*;

verus! {

/// A map from texts to values. No key stands in it twice.
#[derive(Debug)]
pub struct TextMap<V> {
    entries: Vec<(String, V)>,
}

/// The value at the place of `key` in a list of entries.
pub open spec fn value_of<V>(entries: Seq<(String, V)>, key: Seq<char>) -> V {
    let i = choose|i: int| 0 <= i < entries.len() && (#[trigger] entries[i]).0@ == key;
    entries[i].1
}

/// The map that a list of entries stands for.
pub open spec fn map_of<V>(entries: Seq<(String, V)>) -> Map<Seq<char>, V> {
    Map::new(
        |k: Seq<char>| exists|i: int| 0 <= i < entries.len() && (#[trigger] entries[i]).0@ == k,
        |k: Seq<char>| value_of(entries, k),
    )
}

/// No key stands in the list twice.
pub open spec fn keys_distinct<V>(entries: Seq<(String, V)>) -> bool {
    forall|i: int, j: int|
        0 <= i < j < entries.len() ==> (#[trigger] entries[i]).0@ != (#[trigger] entries[j]).0@
}

impl<V> View for TextMap<V> {
    type V = Map<Seq<char>, V>;

    closed spec fn view(&self) -> Map<Seq<char>, V> {
        map_of(self.entries@)
    }
}

proof fn lemma_entry<V>(entries: Seq<(String, V)>, i: int)
    requires
        keys_distinct(entries),
        0 <= i < entries.len(),
    ensures
        map_of(entries).dom().contains(entries[i].0@),
        map_of(entries)[entries[i].0@] == entries[i].1,
{
    let key = entries[i].0@;
    let k = choose|k: int| 0 <= k < entries.len() && (#[trigger] entries[k]).0@ == key;
    assert(entries[i].0@ == key);
    assert(k == i);
}

proof fn lemma_size<V>(entries: Seq<(String, V)>)
    requires
        keys_distinct(entries),
    ensures
        map_of(entries).dom().finite(),
        map_of(entries).dom().len() == entries.len(),
{
    let keys = Seq::new(entries.len(), |i: int| entries[i].0@);
    assert(keys.no_duplicates());
    assert(keys.to_set() =~= map_of(entries).dom()) by {
        assert forall|k: Seq<char>| map_of(entries).dom().contains(k) implies keys.to_set().contains(
            k,
        ) by {
            let i = choose|i: int| 0 <= i < entries.len() && (#[trigger] entries[i]).0@ == k;
            assert(keys[i] == k);
        }
        assert forall|k: Seq<char>| keys.to_set().contains(k) implies map_of(entries).dom().contains(
            k,
        ) by {
            let i = choose|i: int| 0 <= i < keys.len() && keys[i] == k;
            assert(entries[i].0@ == k);
        }
    }
    keys.unique_seq_to_set();
    vstd::seq_lib::seq_to_set_is_finite(keys);
}

impl<V> TextMap<V> {
    /// No key stands in the map twice.
    pub closed spec fn wf(&self) -> bool {
        keys_distinct(self.entries@)
    }

    /// The entries in the order of insertion.
    pub closed spec fn listed(&self) -> Seq<(Seq<char>, V)> {
        Seq::new(self.entries@.len(), |i: int| (self.entries@[i].0@, self.entries@[i].1))
    }

    /// The list and the map say the same: every place of the list holds a key of the map
    /// with its value, and every key has one place.
    pub proof fn lemma_listed(&self)
        requires
            self.wf(),
        ensures
            self@.dom().finite(),
            self@.dom().len() == self.listed().len(),
            forall|i: int|
                0 <= i < self.listed().len() ==> self@.dom().contains((#[trigger] self.listed()[i]).0)
                    && self@[self.listed()[i].0] == self.listed()[i].1,
            forall|k: Seq<char>| #[trigger]
                self@.dom().contains(k) ==> exists|i: int|
                    0 <= i < self.listed().len() && (#[trigger] self.listed()[i]).0 == k,
            forall|i: int, j: int|
                0 <= i < j < self.listed().len() ==> (#[trigger] self.listed()[i]).0 != (
                #[trigger] self.listed()[j]).0,
    {
        lemma_size(self.entries@);
        assert forall|i: int| 0 <= i < self.listed().len() implies self@.dom().contains(
            (#[trigger] self.listed()[i]).0,
        ) && self@[self.listed()[i].0] == self.listed()[i].1 by {
            lemma_entry(self.entries@, i);
        }
        assert forall|k: Seq<char>| #[trigger] self@.dom().contains(k) implies exists|i: int|
            0 <= i < self.listed().len() && (#[trigger] self.listed()[i]).0 == k by {
            let i = choose|i: int|
                0 <= i < self.entries@.len() && (#[trigger] self.entries@[i]).0@ == k;
            assert(self.listed()[i].0 == k);
        }
    }

    /// The empty map.
    pub fn new() -> (r: Self)
        ensures
            r.wf(),
            r@ == Map::<Seq<char>, V>::empty(),
    {
        let m = TextMap { entries: Vec::new() };
        assert(m@ =~= Map::empty());
        m
    }

    /// How many keys there are.
    pub fn len(&self) -> (r: usize)
        requires
            self.wf(),
        ensures
            r == self.listed().len(),
            r == self@.dom().len(),
    {
        proof {
            self.lemma_listed();
        }
        self.entries.len()
    }

    /// The key at place `i`.
    pub fn key_at(&self, i: usize) -> (r: &String)
        requires
            i < self.listed().len(),
        ensures
            r@ == self.listed()[i as int].0,
    {
        &self.entries[i].0
    }

    /// The value at place `i`.
    pub fn value_at(&self, i: usize) -> (r: &V)
        requires
            i < self.listed().len(),
        ensures
            *r == self.listed()[i as int].1,
    {
        &self.entries[i].1
    }

    fn place(&self, key: &str) -> (r: Option<usize>)
        ensures
            match r {
                Some(i) => i < self.entries@.len() && self.entries@[i as int].0@ == key@,
                None => forall|i: int|
                    0 <= i < self.entries@.len() ==> (#[trigger] self.entries@[i]).0@ != key@,
            },
    {
        let mut i: usize = 0;
        while i < self.entries.len()
            invariant
                i <= self.entries@.len(),
                forall|j: int| 0 <= j < i ==> (#[trigger] self.entries@[j]).0@ != key@,
            decreases self.entries.len() - i,
        {
            if text_eq(self.entries[i].0.as_str(), key) {
                return Some(i);
            }
            i += 1;
        }
        None
    }

    /// Whether `key` is in the map.
    pub fn contains_key(&self, key: &str) -> (r: bool)
        requires
            self.wf(),
        ensures
            r == self@.dom().contains(key@),
    {
        match self.place(key) {
            Some(i) => {
                proof {
                    lemma_entry(self.entries@, i as int);
                }
                true
            },
            None => false,
        }
    }

    /// The value of `key`.
    pub fn get(&self, key: &str) -> (r: Option<&V>)
        requires
            self.wf(),
        ensures
            match r {
                Some(v) => self@.dom().contains(key@) && *v == self@[key@],
                None => !self@.dom().contains(key@),
            },
    {
        match self.place(key) {
            Some(i) => {
                proof {
                    lemma_entry(self.entries@, i as int);
                }
                Some(&self.entries[i].1)
            },
            None => None,
        }
    }

    /// Sets the value of `key`.
    pub fn insert(&mut self, key: &str, value: V)
        requires
            old(self).wf(),
        ensures
            final(self).wf(),
            final(self)@ == old(self)@.insert(key@, value),
    {
        let ghost before = self.entries@;
        let at = self.place(key);
        match at {
            Some(i) => {
                self.entries[i].1 = value;
                assert(forall|j: int|
                    0 <= j < before.len() ==> (#[trigger] self.entries@[j]).0@ == before[j].0@);
            },
            None => {
                self.entries.push((key.to_owned(), value));
            },
        }
        let ghost after = self.entries@;
        proof {
            assert forall|i: int, j: int| 0 <= i < j < after.len() implies (#[trigger] after[i]).0@ != (
            #[trigger] after[j]).0@ by {
                if i < before.len() {
                    assert(after[i].0@ == before[i].0@);
                }
                if j < before.len() {
                    assert(after[j].0@ == before[j].0@);
                }
            }
            assert forall|k: Seq<char>|
                map_of(after).dom().contains(k) == map_of(before).insert(key@, value).dom().contains(
                    k,
                ) by {
                if map_of(after).dom().contains(k) {
                    let i = choose|i: int| 0 <= i < after.len() && (#[trigger] after[i]).0@ == k;
                    if i < before.len() {
                        assert(before[i].0@ == k);
                    }
                }
                if map_of(before).dom().contains(k) {
                    let i = choose|i: int| 0 <= i < before.len() && (#[trigger] before[i]).0@ == k;
                    assert(after[i].0@ == k);
                }
                if k == key@ {
                    match at {
                        Some(i) => {
                            assert(after[i as int].0@ == k);
                        },
                        None => {
                            assert(after[before.len() as int].0@ == k);
                        },
                    }
                }
            }
            assert forall|k: Seq<char>| map_of(after).dom().contains(k) implies map_of(after)[k]
                == map_of(before).insert(key@, value)[k] by {
                let i = choose|i: int| 0 <= i < after.len() && (#[trigger] after[i]).0@ == k;
                lemma_entry(after, i);
                if k != key@ {
                    assert(i < before.len());
                    assert(before[i].0@ == k);
                    lemma_entry(before, i);
                } else {
                    match at {
                        Some(n) => {
                            assert(after[n as int].0@ == k);
                        },
                        None => {
                            if i < before.len() {
                                assert(before[i].0@ == k);
                            }
                        },
                    }
                }
            }
            assert(map_of(after) =~= map_of(before).insert(key@, value));
        }
    }

    /// Takes the entry at place `i` out.
    pub fn remove_at(&mut self, i: usize)
        requires
            old(self).wf(),
            i < old(self).listed().len(),
        ensures
            final(self).wf(),
            final(self)@ == old(self)@.remove(old(self).listed()[i as int].0),
            final(self).listed() == old(self).listed().remove(i as int),
    {
        let ghost before = self.entries@;
        let _ = self.entries.remove(i);
        let ghost after = self.entries@;
        proof {
            let key = before[i as int].0@;
            assert forall|a: int, b: int| 0 <= a < b < after.len() implies (#[trigger] after[a]).0@ != (
            #[trigger] after[b]).0@ by {
                let x = if a < i {
                    a
                } else {
                    a + 1
                };
                let y = if b < i {
                    b
                } else {
                    b + 1
                };
                assert(before[x].0@ != before[y].0@);
            }
            assert forall|k: Seq<char>|
                map_of(after).dom().contains(k) == map_of(before).remove(key).dom().contains(k) by {
                if map_of(after).dom().contains(k) {
                    let a = choose|a: int| 0 <= a < after.len() && (#[trigger] after[a]).0@ == k;
                    let x = if a < i {
                        a
                    } else {
                        a + 1
                    };
                    assert(before[x].0@ == k);
                    assert(before[x].0@ != before[i as int].0@);
                }
                if map_of(before).dom().contains(k) && k != key {
                    let x = choose|x: int| 0 <= x < before.len() && (#[trigger] before[x]).0@ == k;
                    let a = if x < i {
                        x
                    } else {
                        x - 1
                    };
                    assert(after[a].0@ == k);
                }
            }
            assert forall|k: Seq<char>| map_of(after).dom().contains(k) implies map_of(after)[k]
                == map_of(before).remove(key)[k] by {
                let a = choose|a: int| 0 <= a < after.len() && (#[trigger] after[a]).0@ == k;
                lemma_entry(after, a);
                let x = if a < i {
                    a
                } else {
                    a + 1
                };
                assert(before[x].0@ == k);
                lemma_entry(before, x);
            }
            assert(map_of(after) =~= map_of(before).remove(key));
            assert(self.listed() =~= old(self).listed().remove(i as int));
        }
    }

    /// Takes out every entry whose key is not one of `known`.
    pub fn retain_known(&mut self, known: &Vec<String>)
        requires
            old(self).wf(),
        ensures
            final(self).wf(),
            final(self)@ == old(self)@.restrict(views(known@).to_set()),
    {
        let ghost all = self@;
        let ghost keep = views(known@).to_set();
        let mut i: usize = 0;
        assert(all.restrict(keep) =~= self@.restrict(keep));
        while i < self.entries.len()
            invariant
                self.wf(),
                keep == views(known@).to_set(),
                i <= self.entries@.len(),
                all.restrict(keep) == self@.restrict(keep),
                forall|j: int| 0 <= j < i ==> keep.contains((#[trigger] self.entries@[j]).0@),
            decreases self.entries.len() - i,
        {
            if holds_text(known, self.entries[i].0.as_str()) {
                i += 1;
            } else {
                let ghost key = self.entries@[i as int].0@;
                let ghost before = self.listed();
                let ghost map = self@;
                assert(before[i as int].0 == key);
                self.remove_at(i);
                assert(self.listed().len() == self.entries@.len());
                assert forall|j: int| 0 <= j < i implies keep.contains(
                    (#[trigger] self.entries@[j]).0@,
                ) by {
                    assert(self.listed()[j].0 == before[j].0);
                }
                assert(self@.restrict(keep) =~= map.restrict(keep));
            }
        }
        assert(self@.restrict(keep) =~= self@);
    }
}

} // verus!
