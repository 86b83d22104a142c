use std::collections::HashMap;
use std::hash::Hash;

use vstd::prelude::*;
use vstd::std_specs::hash::obeys_key_model;

use crate::base::{group_of, indexes, lemma_group_empty, lemma_indexes_push, push_refs, values_of, IndexedVector};

verus! {

broadcast use vstd::std_specs::hash::group_hash_axioms;

/// A container of values indexed through a hash map from each key to the
/// values stored under it.
pub struct HashIndexedVector<K, V, F> {
    map: HashMap<K, Vec<V>>,
    key_func: F,
    entries: Ghost<Seq<(K, V)>>,
}

impl<K: Eq + Hash, V, F: Fn(&V) -> K> HashIndexedVector<K, V, F> {
    /// Builds the container from `data`, in order, deriving each value's key
    /// with `key_func`.
    pub fn new(data: Vec<V>, key_func: F) -> (r: Self)
        requires
            obeys_key_model::<K>(),
            forall|v: V| key_func.requires((&v,)),
        ensures
            r.well_formed(),
            values_of(r.entries()) == data@,
            forall|i: int|
                0 <= i < data@.len() ==> key_func.ensures((&data@[i],), #[trigger] r.entries()[i].0),
            forall|v: V, k: K| #[trigger] r.extracts_key(v, k) == key_func.ensures((&v,), k),
    {
        let mut r = HashIndexedVector { map: HashMap::new(), key_func, entries: Ghost(Seq::empty()) };
        let ghost d = data@;
        for item in it: data
            invariant
                r.well_formed(),
                d == it.seq(),
                r.key_func == key_func,
                values_of(r.entries()) == d.take(it.index() as int),
                forall|i: int|
                    0 <= i < it.index() ==> key_func.ensures((&d[i],), #[trigger] r.entries()[i].0),
        {
            let ghost before = r.entries();
            r.add(item);
            proof {
                let n = before.len() as int;
                assert(values_of(r.entries()) =~= values_of(before).push(item));
                assert(d.take(n + 1) =~= d.take(n).push(d[n]));
            }
        }
        proof {
            assert(d.take(d.len() as int) =~= d);
        }
        r
    }

    /// Adds `item` at the end of the group of the key derived from it.
    fn add(&mut self, item: V)
        requires
            old(self).well_formed(),
        ensures
            final(self).well_formed(),
            final(self).key_func == old(self).key_func,
            final(self).entries() == old(self).entries().push(
                (final(self).entries().last().0, item),
            ),
            old(self).key_func.ensures((&item,), final(self).entries().last().0),
    {
        let key = (self.key_func)(&item);
        let ghost old_map = self.map@;
        let ghost old_entries = self.entries@;
        let ghost entry = (key, item);
        let mut group = match self.map.remove(&key) {
            Some(group) => {
                group
            },
            None => {
                proof {
                    lemma_group_empty(old_entries, key);
                    assert(group_of(old_entries, key) =~= Seq::empty());
                }
                Vec::new()
            },
        };
        group.push(item);
        proof {
            lemma_indexes_push(old_map, old_entries, entry, group);
            assert(old_map.remove(key).insert(key, group) =~= old_map.insert(key, group));
        }
        self.map.insert(key, group);
        self.entries = Ghost(old_entries.push(entry));
    }
}

impl<K: Eq + Hash, V, F: Fn(&V) -> K> IndexedVector<K, V> for HashIndexedVector<K, V, F> {
    closed spec fn entries(&self) -> Seq<(K, V)> {
        self.entries@
    }

    closed spec fn well_formed(&self) -> bool {
        &&& obeys_key_model::<K>()
        &&& forall|v: V| self.key_func.requires((&v,))
        &&& indexes(self.map@, self.entries@)
    }

    closed spec fn extracts_key(&self, item: V, key: K) -> bool {
        self.key_func.ensures((&item,), key)
    }

    fn insert(&mut self, item: V) {
        self.add(item);
    }

    fn search(&self, key: &K) -> (r: Vec<&V>) {
        let mut r: Vec<&V> = Vec::new();
        match self.map.get(key) {
            Some(group) => {
                push_refs(&mut r, group);
                assert(r@.unref() =~= group@);
            },
            None => {
                proof {
                    lemma_group_empty(self.entries@, *key);
                }
                assert(r@.unref() =~= group_of(self.entries@, *key));
            },
        }
        r
    }
}

} // verus!
