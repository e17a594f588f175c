//! A small map from keys to values, kept as a list of entries with distinct
//! keys.

use vstd::prelude::*;

verus! {

/// A key: a value that can be compared for equality and copied.
pub trait Key: Copy {
    /// Whether two keys are the same.
    fn same(&self, other: &Self) -> (r: bool)
        ensures
            r == (*self == *other),
    ;
}

/// A value of which an equal copy can be made.
pub trait Dup: View + Sized {
    /// A copy with the same view.
    fn dup(&self) -> (r: Self)
        ensures
            r@ == self@,
    ;
}

/// The keys of a list of entries.
pub open spec fn keys_of<K, V>(entries: Seq<(K, V)>) -> Seq<K> {
    entries.map_values(|e: (K, V)| e.0)
}

/// A map from keys to values.
pub struct Table<K: Key, V: View> {
    entries: Vec<(K, V)>,
}

impl<K: Key, V: View> View for Table<K, V> {
    type V = Map<K, V::V>;

    /// The map that the table stands for.
    closed spec fn view(&self) -> Map<K, V::V> {
        let keys = keys_of(self.entries@);
        Map::new(|k: K| keys.contains(k), |k: K| self.entries@[keys.index_of(k)].1@)
    }
}

impl<K: Key, V: View> Table<K, V> {
    #[verifier::type_invariant]
    spec fn distinct(self) -> bool {
        keys_of(self.entries@).no_duplicates()
    }

    /// The empty table.
    pub fn new() -> (t: Self)
        ensures
            t@ == Map::<K, V::V>::empty(),
    {
        let t = Table { entries: Vec::new() };
        assert(t@ =~= Map::<K, V::V>::empty());
        t
    }

    /// Moves the entries out and leaves the table empty.
    fn take_entries(&mut self) -> (entries: Vec<(K, V)>)
        ensures
            entries == old(self).entries,
            final(self).entries@.len() == 0,
    {
        let mut taken = Table { entries: Vec::new() };
        core::mem::swap(self, &mut taken);
        taken.entries
    }

    /// Where `key` stands among the entries.
    fn find(&self, key: &K) -> (r: Option<usize>)
        ensures
            match r {
                Some(i) => i < self.entries.len() && self.entries@[i as int].0 == *key,
                None => !keys_of(self.entries@).contains(*key),
            },
    {
        let mut i: usize = 0;
        while i < self.entries.len()
            invariant
                i <= self.entries.len(),
                forall|j: int| 0 <= j < i ==> self.entries@[j].0 != *key,
            decreases self.entries.len() - i,
        {
            if self.entries[i].0.same(key) {
                return Some(i);
            }
            i += 1;
        }
        None
    }

    proof fn lemma_entry(self, i: int)
        requires
            self.distinct(),
            0 <= i < self.entries.len(),
        ensures
            self@.contains_key(self.entries@[i].0),
            self@[self.entries@[i].0] == self.entries@[i].1@,
    {
        let keys = keys_of(self.entries@);
        let k = self.entries@[i].0;
        assert(keys[i] == k);
        assert(keys.contains(k));
        let j = keys.index_of(k);
        assert(keys[j] == k);
    }

    /// Whether the table holds `key`.
    pub fn contains_key(&self, key: &K) -> (r: bool)
        ensures
            r == self@.contains_key(*key),
    {
        proof {
            use_type_invariant(self);
        }
        match self.find(key) {
            Some(i) => {
                proof {
                    self.lemma_entry(i as int);
                }
                true
            },
            None => false,
        }
    }

    /// The value under `key`, if there is one.
    pub fn get(&self, key: &K) -> (r: Option<&V>)
        ensures
            match r {
                Some(v) => self@.contains_key(*key) && v@ == self@[*key],
                None => !self@.contains_key(*key),
            },
    {
        proof {
            use_type_invariant(self);
        }
        match self.find(key) {
            Some(i) => {
                proof {
                    self.lemma_entry(i as int);
                }
                Some(&self.entries[i].1)
            },
            None => None,
        }
    }

    /// Puts `value` under `key`, in place of what was there.
    pub fn insert(&mut self, key: K, value: V)
        ensures
            final(self)@ == old(self)@.insert(key, value@),
    {
        proof {
            use_type_invariant(&*self);
        }
        let ghost before = *self;
        let ghost goal = before@.insert(key, value@);
        match self.find(&key) {
            Some(i) => {
                let mut entries = self.take_entries();
                entries.set(i, (key, value));
                proof {
                    assert(keys_of(entries@) =~= keys_of(before.entries@));
                }
                *self = Table { entries };
                proof {
                    let keys = keys_of(self.entries@);
                    assert(keys == keys_of(before.entries@));
                    assert forall|k: K| keys.contains(k) implies #[trigger] self@[k] == goal[k] by {
                        let j = keys.index_of(k);
                        assert(keys[j] == k);
                        if k == key {
                            assert(keys[i as int] == key);
                            assert(j == i);
                        } else {
                            assert(self.entries@[j] == before.entries@[j]);
                        }
                    }
                    assert(keys[i as int] == key);
                    assert(self@ =~= goal);
                }
            },
            None => {
                let mut entries = self.take_entries();
                entries.push((key, value));
                proof {
                    assert(keys_of(entries@) =~= keys_of(before.entries@).push(key));
                }
                *self = Table { entries };
                proof {
                    let n = before.entries@.len() as int;
                    let keys = keys_of(self.entries@);
                    let old_keys = keys_of(before.entries@);
                    assert(keys == old_keys.push(key));
                    assert(keys[n] == key);
                    assert forall|k: K| keys.contains(k) implies goal.contains_key(k) && #[trigger] self@[k]
                        == goal[k] by {
                        let j = keys.index_of(k);
                        assert(keys[j] == k);
                        if j < n {
                            assert(old_keys[j] == k);
                            let jb = old_keys.index_of(k);
                            assert(old_keys[jb] == k);
                            assert(keys[jb] == k);
                            assert(jb == j);
                        }
                    }
                    assert forall|k: K| #[trigger] goal.contains_key(k) implies keys.contains(k) by {
                        if k != key {
                            let jb = old_keys.index_of(k);
                            assert(old_keys[jb] == k);
                            assert(keys[jb] == k);
                        }
                    }
                    assert(self@ =~= goal);
                }
            },
        }
    }

    /// Takes out what is under `key`, if anything.
    pub fn remove(&mut self, key: &K) -> (r: Option<V>)
        ensures
            final(self)@ == old(self)@.remove(*key),
            match r {
                Some(v) => old(self)@.contains_key(*key) && v@ == old(self)@[*key],
                None => !old(self)@.contains_key(*key),
            },
    {
        proof {
            use_type_invariant(&*self);
        }
        let ghost before = *self;
        let ghost goal = before@.remove(*key);
        match self.find(key) {
            Some(i) => {
                let mut entries = self.take_entries();
                let entry = entries.remove(i);
                proof {
                    assert(keys_of(entries@) =~= keys_of(before.entries@).remove(i as int));
                    keys_of(before.entries@).remove_ensures(i as int);
                    assert(keys_of(entries@).no_duplicates()) by {
                        let ks = keys_of(entries@);
                        let ob = keys_of(before.entries@);
                        assert forall|a: int, b: int| 0 <= a < ks.len() && 0 <= b < ks.len() && a != b implies ks[a] != ks[b] by {
                            let a2 = if a < i { a } else { a + 1 };
                            let b2 = if b < i { b } else { b + 1 };
                            assert(ks[a] == ob[a2]);
                            assert(ks[b] == ob[b2]);
                        }
                    }
                }
                *self = Table { entries };
                proof {
                    before.lemma_entry(i as int);
                    let keys = keys_of(self.entries@);
                    let old_keys = keys_of(before.entries@);
                    assert(keys == old_keys.remove(i as int));
                    assert forall|k: K| #[trigger] self@.contains_key(k) implies goal.contains_key(k)
                        && self@[k] == goal[k] by {
                        assert(keys.contains(k));
                        let j = keys.index_of(k);
                        assert(keys[j] == k);
                        let j2 = if j < i { j } else { j + 1 };
                        assert(old_keys[j2] == k);
                        assert(self.entries@[j] == before.entries@[j2]);
                        let jb = old_keys.index_of(k);
                        assert(old_keys[jb] == k);
                        assert(jb == j2);
                        assert(old_keys[i as int] == *key);
                    }
                    assert forall|k: K| #[trigger] goal.contains_key(k) implies keys.contains(k) by {
                        let jb = old_keys.index_of(k);
                        assert(old_keys[jb] == k);
                        assert(old_keys[i as int] == *key);
                        let j = if jb < i { jb } else { jb - 1 };
                        assert(keys[j] == k);
                    }
                    assert(self@ =~= goal);
                }
                Some(entry.1)
            },
            None => {
                assert(self@ =~= goal);
                None
            },
        }
    }
}

impl<K: Key, V: Dup> Dup for Table<K, V> {
    fn dup(&self) -> (r: Self) {
        proof {
            use_type_invariant(self);
        }
        let mut entries: Vec<(K, V)> = Vec::new();
        let mut i: usize = 0;
        while i < self.entries.len()
            invariant
                i <= self.entries.len(),
                entries.len() == i,
                forall|j: int|
                    0 <= j < i ==> (#[trigger] entries@[j]).0 == self.entries@[j].0 && entries@[j].1@
                        == self.entries@[j].1@,
            decreases self.entries.len() - i,
        {
            let key = self.entries[i].0;
            let value = self.entries[i].1.dup();
            entries.push((key, value));
            i += 1;
        }
        proof {
            assert(keys_of(entries@) =~= keys_of(self.entries@));
        }
        let r = Table { entries };
        proof {
            let keys = keys_of(self.entries@);
            assert forall|k: K| keys.contains(k) implies #[trigger] r@[k] == self@[k] by {
                let j = keys.index_of(k);
                assert(keys[j] == k);
                assert(r.entries@[j].1@ == self.entries@[j].1@);
            }
            assert(r@ =~= self@);
        }
        r
    }
}

} // verus!
