//! A map from names to values that keeps its names in insertion order.

use vstd::prelude::*;

verus! {

/// Named values, each name at most once, in the order names were first
/// inserted.
pub struct NamedStore<V> {
    entries: Vec<(String, V)>,
}

impl<V> NamedStore<V> {
    /// The names, in insertion order.
    pub closed spec fn names(&self) -> Seq<Seq<char>> {
        Seq::new(self.entries@.len(), |i: int| self.entries@[i].0@)
    }

    /// The values, in the order of their names.
    pub closed spec fn values(&self) -> Seq<V> {
        Seq::new(self.entries@.len(), |i: int| self.entries@[i].1)
    }

    /// No name occurs twice.
    pub open spec fn wf(&self) -> bool {
        &&& self.names().no_duplicates()
        &&& self.values().len() == self.names().len()
    }

    /// The store as a map from names to values.
    pub open spec fn view(&self) -> Map<Seq<char>, V> {
        Map::new(
            |k: Seq<char>| self.names().contains(k),
            |k: Seq<char>| self.values()[self.names().index_of(k)],
        )
    }

    /// Looking up the name at position `i` gives the value at position `i`.
    pub proof fn lemma_lookup(&self, i: int)
        requires
            self.wf(),
            0 <= i < self.names().len(),
        ensures
            self@.contains_key(self.names()[i]),
            self@[self.names()[i]] == self.values()[i],
    {
        let k = self.names()[i];
        assert(self.names().contains(k));
        let j = self.names().index_of(k);
        assert(self.names()[j] == k);
    }

    /// An empty store.
    pub fn new() -> (s: NamedStore<V>)
        ensures
            s.wf(),
            s.names() == Seq::<Seq<char>>::empty(),
            s@ == Map::<Seq<char>, V>::empty(),
    {
        let s = NamedStore { entries: Vec::new() };
        assert(s.names() =~= Seq::<Seq<char>>::empty());
        assert(s@ =~= Map::<Seq<char>, V>::empty());
        s
    }

    /// The number of names.
    pub fn len(&self) -> (n: usize)
        ensures
            n == self.names().len(),
    {
        self.entries.len()
    }

    /// The name at position `i`.
    pub fn name_at(&self, i: usize) -> (name: &String)
        requires
            i < self.names().len(),
        ensures
            name@ == self.names()[i as int],
    {
        &self.entries[i].0
    }

    /// The value at position `i`.
    pub fn value_at(&self, i: usize) -> (v: &V)
        requires
            i < self.names().len(),
        ensures
            *v == self.values()[i as int],
    {
        &self.entries[i].1
    }

    /// The position of `key`, if it is present.
    pub fn position(&self, key: &String) -> (r: Option<usize>)
        requires
            self.wf(),
        ensures
            match r {
                Some(i) => i < self.names().len() && self.names()[i as int] == key@,
                None => !self.names().contains(key@),
            },
    {
        let mut i: usize = 0;
        while i < self.entries.len()
            invariant
                i <= self.entries@.len(),
                forall|j: int| 0 <= j < i ==> self.names()[j] != key@,
            decreases self.entries@.len() - i,
        {
            if self.entries[i].0 == *key {
                return Some(i);
            }
            i = i + 1;
        }
        None
    }

    /// The value stored under `key`, if any.
    pub fn get(&self, key: &str) -> (r: Option<&V>)
        requires
            self.wf(),
        ensures
            match r {
                Some(v) => self@.contains_key(key@) && *v == self@[key@],
                None => !self@.contains_key(key@),
            },
    {
        let k = String::from_str(key);
        match self.position(&k) {
            Some(i) => {
                proof {
                    self.lemma_lookup(i as int);
                }
                Some(&self.entries[i].1)
            },
            None => None,
        }
    }

    /// Stores `value` under `key`: in place of the old value if the name is
    /// present (keeping its position), else as a new last name.
    pub fn insert(&mut self, key: String, value: V)
        requires
            old(self).wf(),
        ensures
            final(self).wf(),
            final(self)@ == old(self)@.insert(key@, value),
            old(self).names().contains(key@) ==> final(self).names() == old(self).names(),
            !old(self).names().contains(key@) ==> final(self).names() == old(self).names().push(
                key@,
            ),
    {
        let ghost k = key@;
        match self.position(&key) {
            Some(i) => {
                self.entries.set(i, (key, value));
                assert(self.names() =~= old(self).names());
                assert(self.values() =~= old(self).values().update(i as int, value));
                assert forall|n: Seq<char>| #[trigger] self@.contains_key(n) == old(self)@.insert(k, value).contains_key(n) by {}
                assert forall|n: Seq<char>| self@.contains_key(n) implies #[trigger] self@[n] == old(self)@.insert(k, value)[n] by {
                    let j = self.names().index_of(n);
                    assert(self.names().contains(n));
                    assert(self.names()[j] == n);
                    if n == k {
                        assert(j == i);
                    } else {
                        assert(j != i);
                        old(self).lemma_lookup(j);
                    }
                }
                assert(self@ =~= old(self)@.insert(k, value));
            },
            None => {
                self.push_new(key, value);
            },
        }
    }

    /// Appends `value` under `key`, a name not yet present, as the last name.
    pub fn push_new(&mut self, key: String, value: V)
        requires
            old(self).wf(),
            !old(self).names().contains(key@),
        ensures
            final(self).wf(),
            final(self).names() == old(self).names().push(key@),
            final(self).values() == old(self).values().push(value),
            final(self)@ == old(self)@.insert(key@, value),
    {
        let ghost k = key@;
        self.entries.push((key, value));
        let ghost n0 = old(self).names().len();
        assert(self.names() =~= old(self).names().push(k));
        assert(self.values() =~= old(self).values().push(value));
        assert(self.names()[n0 as int] == k);
        assert forall|n: Seq<char>| #[trigger] self@.contains_key(n) == old(self)@.insert(k, value).contains_key(n) by {
            if n == k {
                assert(self.names().contains(n));
            }
            if old(self).names().contains(n) {
                let j = old(self).names().index_of(n);
                assert(self.names()[j] == n);
            }
        }
        assert forall|n: Seq<char>| self@.contains_key(n) implies #[trigger] self@[n] == old(self)@.insert(k, value)[n] by {
            let j = self.names().index_of(n);
            assert(self.names()[j] == n);
            if n == k {
                assert(j == n0);
            } else {
                assert(j < n0);
                old(self).lemma_lookup(j);
            }
        }
        assert(self@ =~= old(self)@.insert(k, value));
    }

    /// Removes the name `key` and its value, keeping the order of the others;
    /// returns the value it had.
    pub fn remove(&mut self, key: &str) -> (r: Option<V>)
        requires
            old(self).wf(),
        ensures
            final(self).wf(),
            final(self)@ == old(self)@.remove(key@),
            match r {
                Some(v) => old(self)@.contains_key(key@) && v == old(self)@[key@],
                None => !old(self)@.contains_key(key@),
            },
    {
        let k = String::from_str(key);
        match self.position(&k) {
            Some(i) => {
                proof {
                    old(self).lemma_lookup(i as int);
                }
                let (_, v) = self.entries.remove(i);
                assert(self.names() =~= old(self).names().remove(i as int));
                assert(self.values() =~= old(self).values().remove(i as int));
                assert forall|n: Seq<char>| #[trigger] self@.contains_key(n) == old(self)@.remove(k@).contains_key(n) by {
                    if old(self).names().contains(n) && n != k@ {
                        let j = old(self).names().index_of(n);
                        assert(j != i);
                        if j < i {
                            assert(self.names()[j] == n);
                        } else {
                            assert(self.names()[j - 1] == n);
                        }
                    }
                }
                assert forall|n: Seq<char>| self@.contains_key(n) implies #[trigger] self@[n] == old(self)@.remove(k@)[n] by {
                    let j = self.names().index_of(n);
                    assert(self.names()[j] == n);
                    if j < i {
                        old(self).lemma_lookup(j);
                    } else {
                        old(self).lemma_lookup(j + 1);
                    }
                }
                assert(self@ =~= old(self)@.remove(k@));
                Some(v)
            },
            None => {
                assert(old(self)@.remove(k@) =~= old(self)@);
                None
            },
        }
    }
}

} // verus!
