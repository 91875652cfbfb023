//! A map from strings to values that keeps its entries in the order in which
//! they were inserted.

use vstd::prelude::*;
use crate::text::str_eq;

verus! {

/// The value that `keys` and `values` give `k`: the value at the position of
/// `k` among the keys.
pub open spec fn lookup<V>(keys: Seq<Seq<char>>, values: Seq<V>, k: Seq<char>) -> Option<V> {
    if keys.contains(k) {
        Some(values[keys.index_of(k)])
    } else {
        None
    }
}

/// Taking one key out of a map changes the value of no other key.
pub proof fn lemma_lookup_other<V>(keys: Seq<Seq<char>>, values: Seq<V>, i: int, k: Seq<char>)
    requires
        keys.len() == values.len(),
        keys.no_duplicates(),
        0 <= i < keys.len(),
        keys[i] != k,
    ensures
        keys.remove(i).no_duplicates(),
        lookup(keys.remove(i), values.remove(i), k) == lookup(keys, values, k),
{
    let keys1 = keys.remove(i);
    let values1 = values.remove(i);
    assert forall|a: int, b: int| 0 <= a < keys1.len() && 0 <= b < keys1.len() && a != b implies keys1[a]
        != keys1[b] by {
        let a0 = if a < i { a } else { a + 1 };
        let b0 = if b < i { b } else { b + 1 };
        assert(keys1[a] == keys[a0]);
        assert(keys1[b] == keys[b0]);
    }
    if keys.contains(k) {
        let j = keys.index_of(k);
        let j1 = if j < i { j } else { j - 1 };
        assert(keys1[j1] == k);
        assert(values1[j1] == values[j]);
        assert(keys1.index_of(k) == j1);
    } else {
        if keys1.contains(k) {
            let c = keys1.index_of(k);
            let c0 = if c < i { c } else { c + 1 };
            assert(keys[c0] == k);
        }
    }
}

/// A map with string keys. No key occurs twice; the entries keep their order.
#[derive(Debug)]
pub struct StrMap<V> {
    pub(crate) entries: Vec<(String, V)>,
}

impl<V> StrMap<V> {
    /// The keys, in order.
    pub closed spec fn keys(&self) -> Seq<Seq<char>> {
        Seq::new(self.entries@.len(), |i: int| self.entries@[i].0@)
    }

    /// The values, each at the position of its key.
    pub closed spec fn values(&self) -> Seq<V> {
        Seq::new(self.entries@.len(), |i: int| self.entries@[i].1)
    }

    /// Every key has one value and occurs once.
    #[verifier::type_invariant]
    pub open spec fn wf(&self) -> bool {
        &&& self.keys().len() == self.values().len()
        &&& self.keys().no_duplicates()
    }

    pub open spec fn contains_key(&self, k: Seq<char>) -> bool {
        self.keys().contains(k)
    }

    pub open spec fn spec_get(&self, k: Seq<char>) -> Option<V> {
        lookup(self.keys(), self.values(), k)
    }

    pub fn new() -> (m: Self)
        ensures
            m.keys() == Seq::<Seq<char>>::empty(),
            m.values() == Seq::<V>::empty(),
    {
        let m = StrMap { entries: Vec::new() };
        assert(m.keys() =~= Seq::<Seq<char>>::empty());
        assert(m.values() =~= Seq::<V>::empty());
        m
    }

    pub fn len(&self) -> (n: usize)
        ensures
            n == self.keys().len(),
            self.wf(),
    {
        proof {
            use_type_invariant(self);
        }
        self.entries.len()
    }

    /// The key at position `i`.
    pub fn key_at(&self, i: usize) -> (k: &String)
        requires
            i < self.keys().len(),
        ensures
            k@ == self.keys()[i as int],
    {
        &self.entries[i].0
    }

    /// The value at position `i`.
    pub fn value_at(&self, i: usize) -> (v: &V)
        requires
            i < self.keys().len(),
        ensures
            *v == self.values()[i as int],
    {
        &self.entries[i].1
    }

    /// The position of `key` among the keys.
    pub fn position(&self, key: &str) -> (r: Option<usize>)
        ensures
            self.wf(),
            match r {
                Some(i) => i < self.keys().len() && self.keys()[i as int] == key@
                    && self.keys().index_of(key@) == i,
                None => !self.contains_key(key@),
            },
    {
        proof {
            use_type_invariant(self);
        }
        let mut i: usize = 0;
        while i < self.entries.len()
            invariant
                i <= self.entries.len(),
                self.wf(),
                forall|j: int| 0 <= j < i ==> self.keys()[j] != key@,
            decreases self.entries.len() - i,
        {
            if str_eq(self.entries[i].0.as_str(), key) {
                assert(self.keys()[i as int] == key@);
                return Some(i);
            }
            i += 1;
        }
        None
    }

    pub fn contains(&self, key: &str) -> (r: bool)
        ensures
            r == self.contains_key(key@),
    {
        self.position(key).is_some()
    }

    /// The value of `key`, if it has one.
    pub fn get(&self, key: &str) -> (r: Option<&V>)
        ensures
            self.wf(),
            match r {
                Some(v) => self.spec_get(key@) == Some(*v),
                None => self.spec_get(key@) is None,
            },
    {
        match self.position(key) {
            Some(i) => Some(&self.entries[i].1),
            None => None,
        }
    }

    /// Gives `key` the value `value`. A key that is new is added behind the
    /// others; one that is present keeps its place, and its former value is
    /// returned.
    pub fn insert(&mut self, key: String, value: V) -> (former: Option<V>)
        ensures
            final(self).wf(),
            former == old(self).spec_get(key@),
            old(self).contains_key(key@) ==> final(self).keys() == old(self).keys()
                && final(self).values() == old(self).values().update(
                old(self).keys().index_of(key@),
                value,
            ),
            !old(self).contains_key(key@) ==> final(self).keys() == old(self).keys().push(key@)
                && final(self).values() == old(self).values().push(value),
    {
        let ghost before = *self;
        let found = self.position(key.as_str());
        let mut entries: Vec<(String, V)> = Vec::new();
        std::mem::swap(&mut self.entries, &mut entries);
        let former = match found {
            Some(i) => {
                let (k, former) = entries.remove(i);
                entries.insert(i, (k, value));
                Some(former)
            },
            None => {
                entries.push((key, value));
                None
            },
        };
        proof {
            let after = StrMap { entries };
            if found is Some {
                assert(after.keys() =~= before.keys());
                assert(after.values() =~= before.values().update(found->0 as int, value));
            } else {
                assert(after.keys() =~= before.keys().push(key@));
                assert(after.values() =~= before.values().push(value));
            }
        }
        std::mem::swap(&mut self.entries, &mut entries);
        former
    }

    /// Takes `key` and its value out of the map.
    pub fn remove(&mut self, key: &str) -> (former: Option<V>)
        ensures
            final(self).wf(),
            former == old(self).spec_get(key@),
            old(self).contains_key(key@) ==> final(self).keys() == old(self).keys().remove(
                old(self).keys().index_of(key@),
            ) && final(self).values() == old(self).values().remove(
                old(self).keys().index_of(key@),
            ),
            !old(self).contains_key(key@) ==> final(self).keys() == old(self).keys()
                && final(self).values() == old(self).values(),
    {
        let ghost before = *self;
        let found = self.position(key);
        let mut entries: Vec<(String, V)> = Vec::new();
        std::mem::swap(&mut self.entries, &mut entries);
        let former = match found {
            Some(i) => {
                let (_k, former) = entries.remove(i);
                Some(former)
            },
            None => None,
        };
        proof {
            let after = StrMap { entries };
            if found is Some {
                assert(after.keys() =~= before.keys().remove(found->0 as int));
                assert(after.values() =~= before.values().remove(found->0 as int));
            } else {
                assert(after.keys() =~= before.keys());
                assert(after.values() =~= before.values());
            }
        }
        std::mem::swap(&mut self.entries, &mut entries);
        former
    }

    /// Exchanges the value at position `i` with `value`.
    pub fn swap_value_at(&mut self, i: usize, value: &mut V)
        requires
            i < old(self).keys().len(),
        ensures
            final(self).wf(),
            final(self).keys() == old(self).keys(),
            final(self).values() == old(self).values().update(i as int, *old(value)),
            *final(value) == old(self).values()[i as int],
    {
        proof {
            use_type_invariant(&*self);
        }
        let ghost before = *self;
        let mut entries: Vec<(String, V)> = Vec::new();
        std::mem::swap(&mut self.entries, &mut entries);
        let e = &mut entries[i];
        std::mem::swap(&mut e.1, value);
        proof {
            let after = StrMap { entries };
            assert(after.keys() =~= before.keys());
            assert(after.values() =~= before.values().update(i as int, *old(value)));
        }
        std::mem::swap(&mut self.entries, &mut entries);
    }
}

} // verus!
