//! A small map with texts for keys.
use vstd::prelude::*;

verus! {

/// A map from texts to values; no two entries have one key.
pub struct Table<V> {
    entries: Vec<(String, V)>,
}

impl<V> Table<V> {
    /// Whether entry `i` has the given key.
    closed spec fn at(&self, key: Seq<char>, i: int) -> bool {
        0 <= i < self.entries@.len() && self.entries@[i].0@ == key
    }

    /// Whether some entry has the given key.
    closed spec fn has(&self, key: Seq<char>) -> bool {
        exists|i: int| self.at(key, i)
    }

    /// No two entries have one key.
    pub closed spec fn well_formed(&self) -> bool {
        forall|i: int, j: int|
            0 <= i < j < self.entries@.len() ==> (#[trigger] self.entries@[i]).0@ != (
            #[trigger] self.entries@[j]).0@
    }
}

impl<V> View for Table<V> {
    type V = Map<Seq<char>, V>;

    closed spec fn view(&self) -> Map<Seq<char>, V> {
        Map::new(
            |key: Seq<char>| self.has(key),
            |key: Seq<char>| self.entries@[choose|i: int| self.at(key, i)].1,
        )
    }
}

impl<V: Copy> Table<V> {
    proof fn lemma_at(&self, key: Seq<char>, i: int)
        requires
            self.well_formed(),
            self.at(key, i),
        ensures
            self@.dom().contains(key),
            self@[key] == self.entries@[i].1,
    {
        let j = choose|j: int| self.at(key, j);
        if i < j {
            assert(self.entries@[i].0@ != self.entries@[j].0@);
        }
        if j < i {
            assert(self.entries@[j].0@ != self.entries@[i].0@);
        }
    }

    /// A map without entries.
    pub fn new() -> (table: Table<V>)
        ensures
            table.well_formed(),
            table@ == Map::<Seq<char>, V>::empty(),
    {
        let table = Table { entries: Vec::new() };
        assert(table@ =~= Map::empty());
        table
    }

    fn position(&self, key: &String) -> (result: Option<usize>)
        requires
            self.well_formed(),
        ensures
            match result {
                Some(i) => self.at(key@, i as int),
                None => !self@.dom().contains(key@),
            },
    {
        let mut i: usize = 0;
        while i < self.entries.len()
            invariant
                i <= self.entries@.len(),
                forall|k: int| 0 <= k < i ==> !self.at(key@, k),
            decreases self.entries@.len() - i,
        {
            if self.entries[i].0 == *key {
                return Some(i);
            }
            i += 1;
        }
        None
    }

    /// The value of a key.
    pub fn get(&self, key: &String) -> (result: Option<V>)
        requires
            self.well_formed(),
        ensures
            result is Some <==> self@.dom().contains(key@),
            result is Some ==> result->Some_0 == self@[key@],
    {
        match self.position(key) {
            Some(i) => {
                proof {
                    self.lemma_at(key@, i as int);
                }
                Some(self.entries[i].1)
            },
            None => None,
        }
    }

    /// Takes out a key.
    pub fn remove(&mut self, key: &String)
        requires
            old(self).well_formed(),
        ensures
            final(self).well_formed(),
            final(self)@ == old(self)@.remove(key@),
    {
        match self.position(key) {
            Some(i) => {
                self.entries.remove(i);
                proof {
                    self.lemma_removed(*old(self), i as int);
                }
            },
            None => {
                assert(self@ =~= old(self)@.remove(key@));
            },
        }
    }

    proof fn lemma_removed(&self, before: Table<V>, i: int)
        requires
            before.well_formed(),
            0 <= i < before.entries@.len(),
            self.entries@ == before.entries@.remove(i),
        ensures
            self.well_formed(),
            self@ == before@.remove(before.entries@[i].0@),
    {
        let key = before.entries@[i].0@;
        assert forall|j: int, k: int| 0 <= j < k < self.entries@.len() implies (
        #[trigger] self.entries@[j]).0@ != (#[trigger] self.entries@[k]).0@ by {
            let a: int = if j < i {
                j
            } else {
                j + 1
            };
            let b: int = if k < i {
                k
            } else {
                k + 1
            };
            assert(before.entries@[a].0@ != before.entries@[b].0@);
        }
        assert forall|other: Seq<char>| #[trigger] self@.dom().contains(other) <==> before@.remove(
            key,
        ).dom().contains(other) by {
            if self@.dom().contains(other) {
                let j = choose|j: int| self.at(other, j);
                let a: int = if j < i {
                    j
                } else {
                    j + 1
                };
                assert(before.at(other, a));
                if other == key {
                    if a < i {
                        assert(before.entries@[a].0@ != before.entries@[i].0@);
                    } else {
                        assert(before.entries@[i].0@ != before.entries@[a].0@);
                    }
                }
            }
            if before@.dom().contains(other) && other != key {
                let a = choose|a: int| before.at(other, a);
                let j: int = if a < i {
                    a
                } else {
                    a - 1
                };
                assert(self.at(other, j));
            }
        }
        assert forall|other: Seq<char>| #[trigger] self@.dom().contains(other) implies self@[other]
            == before@[other] by {
            let j = choose|j: int| self.at(other, j);
            let a: int = if j < i {
                j
            } else {
                j + 1
            };
            assert(before.at(other, a));
            self.lemma_at(other, j);
            before.lemma_at(other, a);
        }
        assert(self@ =~= before@.remove(key));
    }

    /// Gives a key a value.
    pub fn insert(&mut self, key: &String, value: V)
        requires
            old(self).well_formed(),
        ensures
            final(self).well_formed(),
            final(self)@ == old(self)@.insert(key@, value),
    {
        self.remove(key);
        let ghost before = *self;
        self.entries.push((key.clone(), value));
        proof {
            let last = self.entries@.len() - 1;
            assert(!before@.dom().contains(key@));
            assert forall|j: int, k: int| 0 <= j < k < self.entries@.len() implies (
            #[trigger] self.entries@[j]).0@ != (#[trigger] self.entries@[k]).0@ by {
                if k == last {
                    assert(self.entries@[j] == before.entries@[j]);
                    if self.entries@[j].0@ == key@ {
                        assert(before.at(key@, j));
                        assert(before.has(key@));
                    }
                } else {
                    assert(before.entries@[j].0@ != before.entries@[k].0@);
                }
            }
            assert forall|other: Seq<char>| #[trigger] self@.dom().contains(other)
                <==> before@.insert(key@, value).dom().contains(other) by {
                if self@.dom().contains(other) {
                    let j = choose|j: int| self.at(other, j);
                    if j < last {
                        assert(before.at(other, j));
                    }
                }
                if before@.dom().contains(other) {
                    let j = choose|j: int| before.at(other, j);
                    assert(self.at(other, j));
                }
                if other == key@ {
                    assert(self.at(other, last));
                }
            }
            assert forall|other: Seq<char>| #[trigger] self@.dom().contains(other) implies self@[other]
                == before@.insert(key@, value)[other] by {
                let j = choose|j: int| self.at(other, j);
                self.lemma_at(other, j);
                if j < last {
                    assert(before.at(other, j));
                    before.lemma_at(other, j);
                }
            }
            assert(self@ =~= before@.insert(key@, value));
            assert(self@ =~= old(self)@.insert(key@, value));
        }
    }

    /// Takes out every key that is not in `keys`.
    pub fn retain(&mut self, keys: &Vec<String>)
        requires
            old(self).well_formed(),
        ensures
            final(self).well_formed(),
            final(self)@ == old(self)@.restrict(
                Set::new(|key: Seq<char>| crate::sql::text_views(keys@).contains(key)),
            ),
    {
        let ghost kept = Set::new(|key: Seq<char>| crate::sql::text_views(keys@).contains(key));
        let mut i: usize = 0;
        while i < self.entries.len()
            invariant
                self.well_formed(),
                i <= self.entries@.len(),
                kept == Set::new(|key: Seq<char>| crate::sql::text_views(keys@).contains(key)),
                self@.restrict(kept) == old(self)@.restrict(kept),
                forall|k: int| 0 <= k < i ==> kept.contains((#[trigger] self.entries@[k]).0@),
            decreases self.entries@.len() - i,
        {
            if among(keys, &self.entries[i].0) {
                i += 1;
            } else {
                let ghost before = *self;
                let ghost gone = self.entries@[i as int].0@;
                self.entries.remove(i);
                proof {
                    self.lemma_removed(before, i as int);
                    assert(before@.remove(gone).restrict(kept) =~= before@.restrict(kept));
                }
            }
        }
        proof {
            assert forall|key: Seq<char>| #[trigger] self@.dom().contains(key) implies kept.contains(
                key,
            ) by {
                let j = choose|j: int| self.at(key, j);
                assert(kept.contains(self.entries@[j].0@));
            }
            assert(self@ =~= self@.restrict(kept));
        }
    }
}

/// Whether `key` is one of `keys`.
pub fn among(keys: &Vec<String>, key: &String) -> (result: bool)
    ensures
        result == crate::sql::text_views(keys@).contains(key@),
{
    let mut i: usize = 0;
    while i < keys.len()
        invariant
            i <= keys@.len(),
            forall|k: int| 0 <= k < i ==> (#[trigger] keys@[k])@ != key@,
        decreases keys@.len() - i,
    {
        if keys[i] == *key {
            assert(crate::sql::text_views(keys@)[i as int] == key@);
            return true;
        }
        i += 1;
    }
    assert forall|k: int| 0 <= k < keys@.len() implies #[trigger] crate::sql::text_views(keys@)[k]
        != key@ by {
        assert(keys@[k]@ != key@);
    }
    false
}

} // verus!
