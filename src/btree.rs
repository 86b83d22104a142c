use std::cmp::Ordering;
use std::collections::BTreeMap;

use vstd::laws_cmp::{obeys_cmp, obeys_cmp_ord, obeys_partial_cmp_spec_properties};
use vstd::prelude::*;
use vstd::std_specs::cmp::{OrdSpec, PartialOrdSpec};
use vstd::std_specs::btree::increasing_seq;
use vstd::std_specs::iter::IteratorSpec;

use crate::base::{
    group_of, has_key, indexes, lemma_group_empty, lemma_indexes_push, push_refs, values_of,
    IndexedVector,
};

verus! {

broadcast use vstd::std_specs::btree::group_btree_axioms;

/// One end of a range of keys.
pub enum KeyBound<K> {
    Included(K),
    Excluded(K),
    Unbounded,
}

/// Whether `key` lies on the inner side of the lower end `lower`.
pub open spec fn above_lower<K: Ord>(lower: KeyBound<K>, key: K) -> bool {
    match lower {
        KeyBound::Included(a) => key.cmp_spec(&a) != Ordering::Less,
        KeyBound::Excluded(a) => key.cmp_spec(&a) == Ordering::Greater,
        KeyBound::Unbounded => true,
    }
}

/// Whether `key` lies on the inner side of the upper end `upper`.
pub open spec fn below_upper<K: Ord>(upper: KeyBound<K>, key: K) -> bool {
    match upper {
        KeyBound::Included(b) => key.cmp_spec(&b) != Ordering::Greater,
        KeyBound::Excluded(b) => key.cmp_spec(&b) == Ordering::Less,
        KeyBound::Unbounded => true,
    }
}

/// Whether `key` lies in the range from `range.0` to `range.1`.
pub open spec fn in_range<K: Ord>(range: (KeyBound<K>, KeyBound<K>), key: K) -> bool {
    above_lower(range.0, key) && below_upper(range.1, key)
}

/// Whether each key of `keys` is less than every key after it.
pub open spec fn ascending<K: Ord>(keys: Seq<K>) -> bool {
    forall|i: int, j: int| 0 <= i < j < keys.len() ==> #[trigger] keys[i].cmp_spec(&keys[j]) == Ordering::Less
}

/// The keys of `s` in ascending order.
pub open spec fn sorted_keys<K: Ord>(s: Set<K>) -> Seq<K> {
    choose|keys: Seq<K>| ascending(keys) && keys.to_set() == s
}

/// The keys recorded in `entries` that lie in `range`.
pub open spec fn keys_in_range<K: Ord, V>(
    entries: Seq<(K, V)>,
    range: (KeyBound<K>, KeyBound<K>),
) -> Set<K> {
    Set::new(|k: K| has_key(entries, k) && in_range(range, k))
}

/// The groups of the keys of `entries` that lie in `range`, one after the
/// other in ascending order of key.
pub open spec fn range_groups<K: Ord, V>(
    entries: Seq<(K, V)>,
    range: (KeyBound<K>, KeyBound<K>),
) -> Seq<V> {
    sorted_keys(keys_in_range(entries, range)).map_values(|k: K| group_of(entries, k)).flatten()
}

/// If `a` is less than `b`, then `b` is greater than `a`.
pub proof fn lemma_less_flips<K: Ord>(a: K, b: K)
    requires
        obeys_cmp::<K>(),
        a.cmp_spec(&b) == Ordering::Less,
    ensures
        b.cmp_spec(&a) == Ordering::Greater,
{
    reveal(obeys_cmp_ord);
    reveal(obeys_partial_cmp_spec_properties);
    assert(a.partial_cmp_spec(&b) == Some(a.cmp_spec(&b)));
    assert(b.partial_cmp_spec(&a) == Some(b.cmp_spec(&a)));
}

/// Two ascending sequences of keys with the same elements are equal.
pub proof fn lemma_ascending_unique<K: Ord>(a: Seq<K>, b: Seq<K>)
    requires
        obeys_cmp::<K>(),
        ascending(a),
        ascending(b),
        a.to_set() == b.to_set(),
    ensures
        a == b,
    decreases a.len(),
{
    if a.len() == 0 {
        if b.len() > 0 {
            assert(b.to_set().contains(b[0]));
        }
        assert(a =~= b);
    } else if b.len() == 0 {
        assert(a.to_set().contains(a[0]));
    } else {
        assert(a.to_set().contains(a[0]));
        assert(b.to_set().contains(b[0]));
        let j = choose|j: int| 0 <= j < b.len() && b[j] == a[0];
        let i = choose|i: int| 0 <= i < a.len() && a[i] == b[0];
        if a[0] != b[0] {
            assert(b[0].cmp_spec(&b[j]) == Ordering::Less);
            assert(a[0].cmp_spec(&a[i]) == Ordering::Less);
            lemma_less_flips(b[0], a[0]);
            assert(false);
        }
        let a1 = a.drop_first();
        let b1 = b.drop_first();
        assert forall|k: K| a1.to_set().contains(k) implies b1.to_set().contains(k) by {
            let p = choose|p: int| 0 <= p < a1.len() && a1[p] == k;
            assert(a[p + 1] == k);
            assert(b.to_set().contains(k));
            let q = choose|q: int| 0 <= q < b.len() && b[q] == k;
            if q == 0 {
                assert(a[0].cmp_spec(&a[p + 1]) == Ordering::Less);
                lemma_less_flips(a[0], a[0]);
            }
            assert(b1[q - 1] == k);
        }
        assert forall|k: K| b1.to_set().contains(k) implies a1.to_set().contains(k) by {
            let p = choose|p: int| 0 <= p < b1.len() && b1[p] == k;
            assert(b[p + 1] == k);
            assert(a.to_set().contains(k));
            let q = choose|q: int| 0 <= q < a.len() && a[q] == k;
            if q == 0 {
                assert(b[0].cmp_spec(&b[p + 1]) == Ordering::Less);
                lemma_less_flips(b[0], b[0]);
            }
            assert(a1[q - 1] == k);
        }
        assert(a1.to_set() =~= b1.to_set());
        assert(ascending(a1)) by {
            assert forall|x: int, y: int| 0 <= x < y < a1.len() implies #[trigger] a1[x].cmp_spec(&a1[y]) == Ordering::Less by {
                assert(a[x + 1].cmp_spec(&a[y + 1]) == Ordering::Less);
            }
        }
        assert(ascending(b1)) by {
            assert forall|x: int, y: int| 0 <= x < y < b1.len() implies #[trigger] b1[x].cmp_spec(&b1[y]) == Ordering::Less by {
                assert(b[x + 1].cmp_spec(&b[y + 1]) == Ordering::Less);
            }
        }
        lemma_ascending_unique(a1, b1);
        assert(a =~= b) by {
            assert(a == seq![a[0]] + a1);
            assert(b == seq![b[0]] + b1);
        }
    }
}

/// Walking the keys that lie in `range` in any ascending order, and taking
/// the group of each, collects the values of a range search; so two range
/// searches over the same range with no insertion in between agree.
pub proof fn lemma_range_groups_determined<K: Ord, V>(
    entries: Seq<(K, V)>,
    range: (KeyBound<K>, KeyBound<K>),
    keys: Seq<K>,
)
    requires
        obeys_cmp::<K>(),
        ascending(keys),
        keys.to_set() == keys_in_range(entries, range),
    ensures
        keys.map_values(|k: K| group_of(entries, k)).flatten() == range_groups(entries, range),
{
    lemma_ascending_unique(keys, sorted_keys(keys_in_range(entries, range)));
}

/// Whether `key` lies in `range`.
fn range_contains<K: Ord>(range: &(KeyBound<K>, KeyBound<K>), key: &K) -> (r: bool)
    requires
        obeys_cmp::<K>(),
    ensures
        r == in_range(*range, *key),
{
    proof {
        reveal(obeys_cmp_ord);
    }
    let above = match &range.0 {
        KeyBound::Included(a) => !matches!(key.cmp(a), Ordering::Less),
        KeyBound::Excluded(a) => matches!(key.cmp(a), Ordering::Greater),
        KeyBound::Unbounded => true,
    };
    let below = match &range.1 {
        KeyBound::Included(b) => !matches!(key.cmp(b), Ordering::Greater),
        KeyBound::Excluded(b) => matches!(key.cmp(b), Ordering::Less),
        KeyBound::Unbounded => true,
    };
    above && below
}

/// A container of values indexed through an ordered map from each key to the
/// values stored under it; it also answers searches over a range of keys.
pub struct BTreeIndexedVector<K, V, F> {
    map: BTreeMap<K, Vec<V>>,
    key_func: F,
    entries: Ghost<Seq<(K, V)>>,
}

impl<K: Ord, V, F: Fn(&V) -> K> BTreeIndexedVector<K, V, F> {
    /// Builds the container from `data`, in order, deriving each value's key
    /// with `key_func`.
    pub fn new(data: Vec<V>, key_func: F) -> (r: Self)
        requires
            obeys_cmp::<K>(),
            forall|v: V| key_func.requires((&v,)),
        ensures
            r.well_formed(),
            values_of(r.entries()) == data@,
            forall|i: int|
                0 <= i < data@.len() ==> key_func.ensures((&data@[i],), #[trigger] r.entries()[i].0),
            forall|v: V, k: K| #[trigger] r.extracts_key(v, k) == key_func.ensures((&v,), k),
    {
        let mut r = BTreeIndexedVector { map: BTreeMap::new(), key_func, entries: Ghost(Seq::empty()) };
        let ghost d = data@;
        for item in it: data
            invariant
                r.well_formed(),
                d == it.seq(),
                r.key_func == key_func,
                values_of(r.entries()) == d.take(it.index() as int),
                forall|i: int|
                    0 <= i < it.index() ==> key_func.ensures((&d[i],), #[trigger] r.entries()[i].0),
        {
            let ghost before = r.entries();
            r.add(item);
            proof {
                let n = before.len() as int;
                assert(values_of(r.entries()) =~= values_of(before).push(item));
                assert(d.take(n + 1) =~= d.take(n).push(d[n]));
            }
        }
        proof {
            assert(d.take(d.len() as int) =~= d);
        }
        r
    }

    /// The values whose keys lie in `range`: the groups of those keys one
    /// after the other in ascending order of key, each in the order in which
    /// its values were added. A range whose lower end lies above its upper end
    /// holds no key.
    pub fn search_range(&self, range: (KeyBound<K>, KeyBound<K>)) -> (r: Vec<&V>)
        requires
            self.well_formed(),
        ensures
            r@.unref() == range_groups(self.entries(), range),
    {
        let ghost entries = self.entries@;
        let mut r: Vec<&V> = Vec::new();
        let ghost mut kept: Seq<K> = Seq::empty();
        let iter = self.map.iter();
        let ghost all = iter.remaining();
        proof {
            assert(r@.unref() =~= kept.map_values(|k: K| group_of(entries, k)).flatten());
            let ks = all.map_values(|kv: (&K, &Vec<V>)| *kv.0);
            assert(increasing_seq(ks));
            assert forall|i: int, j: int| 0 <= i < j < all.len() implies (#[trigger] all[i]).0.cmp_spec(
                #[trigger] all[j].0,
            ) == Ordering::Less by {
                assert(ks[i] == *all[i].0);
                assert(ks[j] == *all[j].0);
            }
        }
        for kv in it: iter
            invariant
                self.well_formed(),
                entries == self.entries@,
                it.seq() == all,
                all.len() == self.map@.dom().len(),
                forall|j: int|
                    0 <= j < all.len() ==> self.map@.contains_key(*(#[trigger] all[j]).0)
                        && self.map@[*all[j].0] == *all[j].1,
                forall|k: K| #[trigger] self.map@.contains_key(k) ==> all.contains((&k, &self.map@[k])),
                forall|i: int, j: int|
                    0 <= i < j < all.len() ==> (#[trigger] all[i]).0.cmp_spec(#[trigger] all[j].0)
                        == Ordering::Less,
                ascending(kept),
                r@.unref() == kept.map_values(|k: K| group_of(entries, k)).flatten(),
                forall|a: int|
                    0 <= a < kept.len() ==> exists|j: int|
                        0 <= j < it.index() && *all[j].0 == #[trigger] kept[a],
                forall|a: int|
                    0 <= a < kept.len() ==> in_range(range, #[trigger] kept[a])
                        && has_key(entries, kept[a]),
                forall|j: int|
                    0 <= j < it.index() && in_range(range, *all[j].0) ==> kept.contains(
                        *(#[trigger] all[j]).0,
                    ),
        {
            let (key, group) = kv;
            if range_contains(&range, key) {
                let ghost before = r@.unref();
                push_refs(&mut r, group);
                proof {
                    let n = it.index();
                    let g = |k: K| group_of(entries, k);
                    assert(group@ == group_of(entries, *key));
                    assert(kept.push(*key).map_values(g) =~= kept.map_values(g).push(g(*key)));
                    kept.map_values(g).lemma_flatten_push(g(*key));
                    assert forall|a: int| 0 <= a < kept.len() implies #[trigger] kept[a].cmp_spec(key) == Ordering::Less by {
                        let j = choose|j: int| 0 <= j < n && *all[j].0 == kept[a];
                        assert(all[j].0.cmp_spec(all[n].0) == Ordering::Less);
                    }
                    let old_kept = kept;
                    kept = kept.push(*key);
                    assert forall|a: int| 0 <= a < kept.len() implies exists|j: int|
                        0 <= j < n + 1 && *all[j].0 == #[trigger] kept[a] by {
                        if a < old_kept.len() {
                            let j = choose|j: int| 0 <= j < n && *all[j].0 == old_kept[a];
                            assert(*all[j].0 == kept[a]);
                        } else {
                            assert(*all[n].0 == kept[a]);
                        }
                    }
                    assert forall|j: int| 0 <= j < n + 1 && in_range(range, *all[j].0) implies kept.contains(
                        *(#[trigger] all[j]).0) by {
                        if j < n {
                            assert(old_kept.contains(*all[j].0));
                            let a = choose|a: int| 0 <= a < old_kept.len() && old_kept[a] == *all[j].0;
                            assert(kept[a] == *all[j].0);
                        } else {
                            assert(kept[old_kept.len() as int] == *all[j].0);
                        }
                    }
                }
            }
        }
        proof {
            let s = keys_in_range(entries, range);
            assert forall|k: K| kept.to_set().contains(k) <==> s.contains(k) by {
                if s.contains(k) {
                    assert(self.map@.contains_key(k));
                    let j = choose|j: int| 0 <= j < all.len() && all[j] == (&k, &self.map@[k]);
                    assert(*all[j].0 == k);
                }
                if kept.to_set().contains(k) {
                    let a = choose|a: int| 0 <= a < kept.len() && kept[a] == k;
                    assert(in_range(range, kept[a]));
                }
            }
            assert(kept.to_set() =~= s);
            lemma_ascending_unique(kept, sorted_keys(s));
        }
        r
    }

    /// Adds `item` at the end of the group of the key derived from it.
    fn add(&mut self, item: V)
        requires
            old(self).well_formed(),
        ensures
            final(self).well_formed(),
            final(self).key_func == old(self).key_func,
            final(self).entries() == old(self).entries().push(
                (final(self).entries().last().0, item),
            ),
            old(self).key_func.ensures((&item,), final(self).entries().last().0),
    {
        let key = (self.key_func)(&item);
        let ghost old_map = self.map@;
        let ghost old_entries = self.entries@;
        let ghost entry = (key, item);
        let mut group = match self.map.remove(&key) {
            Some(group) => group,
            None => {
                proof {
                    lemma_group_empty(old_entries, key);
                    assert(group_of(old_entries, key) =~= Seq::empty());
                }
                Vec::new()
            },
        };
        group.push(item);
        proof {
            lemma_indexes_push(old_map, old_entries, entry, group);
            assert(old_map.remove(key).insert(key, group) =~= old_map.insert(key, group));
        }
        self.map.insert(key, group);
        self.entries = Ghost(old_entries.push(entry));
    }
}

impl<K: Ord, V, F: Fn(&V) -> K> IndexedVector<K, V> for BTreeIndexedVector<K, V, F> {
    closed spec fn entries(&self) -> Seq<(K, V)> {
        self.entries@
    }

    closed spec fn well_formed(&self) -> bool {
        &&& obeys_cmp::<K>()
        &&& forall|v: V| self.key_func.requires((&v,))
        &&& indexes(self.map@, self.entries@)
    }

    closed spec fn extracts_key(&self, item: V, key: K) -> bool {
        self.key_func.ensures((&item,), key)
    }

    fn insert(&mut self, item: V) {
        self.add(item);
    }

    fn search(&self, key: &K) -> (r: Vec<&V>) {
        let mut r: Vec<&V> = Vec::new();
        match self.map.get(key) {
            Some(group) => {
                push_refs(&mut r, group);
                assert(r@.unref() =~= group@);
            },
            None => {
                proof {
                    lemma_group_empty(self.entries@, *key);
                }
                assert(r@.unref() =~= group_of(self.entries@, *key));
            },
        }
        r
    }
}

} // verus!
