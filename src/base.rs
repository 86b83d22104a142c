use vstd::multiset::Multiset;
use vstd::prelude::*;

verus! {

/// The values of `entries` whose recorded key is `key`, in the order in which
/// they were added.
pub open spec fn group_of<K, V>(entries: Seq<(K, V)>, key: K) -> Seq<V> {
    entries.filter(key_is(key)).map_values(|e: (K, V)| e.1)
}

/// The test that an entry was recorded under `key`.
pub open spec fn key_is<K, V>(key: K) -> spec_fn((K, V)) -> bool {
    |e: (K, V)| e.0 == key
}

/// Whether some entry was recorded under `key`.
pub open spec fn has_key<K, V>(entries: Seq<(K, V)>, key: K) -> bool {
    exists|i: int| 0 <= i < entries.len() && #[trigger] entries[i].0 == key
}

/// The stored values, in the order in which they were added.
pub open spec fn values_of<K, V>(entries: Seq<(K, V)>) -> Seq<V> {
    entries.map_values(|e: (K, V)| e.1)
}

/// A map from each recorded key to its group, with no key whose group is empty.
pub open spec fn indexes<K, V>(m: Map<K, Vec<V>>, entries: Seq<(K, V)>) -> bool {
    &&& forall|k: K| #[trigger] m.contains_key(k) <==> has_key(entries, k)
    &&& forall|k: K| #[trigger] m.contains_key(k) ==> m[k]@ == group_of(entries, k)
}

/// Adding an entry adds its value at the end of its own key's group and
/// leaves every other group as it was.
pub proof fn lemma_group_push<K, V>(entries: Seq<(K, V)>, entry: (K, V), key: K)
    ensures
        group_of(entries.push(entry), key) == if entry.0 == key {
            group_of(entries, key).push(entry.1)
        } else {
            group_of(entries, key)
        },
{
    entries.lemma_filter_push(entry, key_is(key));
    let f = entries.filter(key_is(key));
    assert(f.push(entry).map_values(|e: (K, V)| e.1) =~= f.map_values(|e: (K, V)| e.1).push(
        entry.1,
    ));
}

/// A key has a non-empty group exactly when some entry was recorded under it:
/// a search for a key that was never recorded finds nothing.
pub proof fn lemma_group_empty<K, V>(entries: Seq<(K, V)>, key: K)
    ensures
        group_of(entries, key).len() == 0 <==> !has_key(entries, key),
    decreases entries.len(),
{
    if entries.len() > 0 {
        let rest = entries.drop_last();
        lemma_group_empty(rest, key);
        assert(rest.push(entries.last()) =~= entries);
        lemma_group_push(rest, entries.last(), key);
        if has_key(rest, key) {
            let i = choose|i: int| 0 <= i < rest.len() && #[trigger] rest[i].0 == key;
            assert(entries[i].0 == key);
        }
        if has_key(entries, key) && entries.last().0 != key {
            let i = choose|i: int| 0 <= i < entries.len() && #[trigger] entries[i].0 == key;
            assert(rest[i].0 == key);
        }
    } else {
        reveal(Seq::filter);
    }
}

/// Adding an entry leaves the map an index of the longer history, once the
/// entry's value is added to its key's group.
pub proof fn lemma_indexes_push<K, V>(
    m: Map<K, Vec<V>>,
    entries: Seq<(K, V)>,
    entry: (K, V),
    group: Vec<V>,
)
    requires
        indexes(m, entries),
        group@ == group_of(entries, entry.0).push(entry.1),
    ensures
        indexes(m.insert(entry.0, group), entries.push(entry)),
{
    let e = entries.push(entry);
    let m2 = m.insert(entry.0, group);
    assert forall|k: K| #[trigger] m2.contains_key(k) <==> has_key(e, k) by {
        if k != entry.0 && has_key(e, k) {
            let i = choose|i: int| 0 <= i < e.len() && #[trigger] e[i].0 == k;
            assert(entries[i].0 == k);
        }
        if has_key(entries, k) {
            let i = choose|i: int| 0 <= i < entries.len() && #[trigger] entries[i].0 == k;
            assert(e[i].0 == k);
        }
        assert(e[entries.len() as int].0 == entry.0);
    }
    assert forall|k: K| #[trigger] m2.contains_key(k) implies m2[k]@ == group_of(e, k) by {
        lemma_group_push(entries, entry, k);
    }
}

/// The test that an entry was recorded under one of `keys`.
pub open spec fn key_among<K, V>(keys: Seq<K>) -> spec_fn((K, V)) -> bool {
    |e: (K, V)| keys.contains(e.0)
}

/// A history made of a first part followed by a second has, for each key,
/// the group of the first part followed by the group of the second: values
/// loaded in bulk come first, then those inserted later, each in order.
pub proof fn lemma_group_concat<K, V>(first: Seq<(K, V)>, second: Seq<(K, V)>, key: K)
    ensures
        group_of(first + second, key) == group_of(first, key) + group_of(second, key),
{
    Seq::filter_distributes_over_add(first, second, key_is(key));
    let a = first.filter(key_is(key));
    let b = second.filter(key_is(key));
    assert((a + b).map_values(|e: (K, V)| e.1) =~= a.map_values(|e: (K, V)| e.1) + b.map_values(
        |e: (K, V)| e.1,
    ));
}

proof fn lemma_filter_none<K, V>(entries: Seq<(K, V)>)
    ensures
        entries.filter(key_among(Seq::<K>::empty())) == Seq::<(K, V)>::empty(),
    decreases entries.len(),
{
    reveal(Seq::filter);
    if entries.len() > 0 {
        lemma_filter_none(entries.drop_last());
    }
}

proof fn lemma_filter_all<K, V>(entries: Seq<(K, V)>, keys: Seq<K>)
    requires
        forall|i: int| 0 <= i < entries.len() ==> keys.contains(#[trigger] entries[i].0),
    ensures
        entries.filter(key_among(keys)) == entries,
    decreases entries.len(),
{
    if entries.len() > 0 {
        let rest = entries.drop_last();
        assert forall|i: int| 0 <= i < rest.len() implies keys.contains(#[trigger] rest[i].0) by {
            assert(rest[i] == entries[i]);
        }
        lemma_filter_all(rest, keys);
        assert(rest.push(entries.last()) =~= entries);
        rest.lemma_filter_push(entries.last(), key_among(keys));
    } else {
        reveal(Seq::filter);
    }
}

proof fn lemma_filter_split<K, V>(entries: Seq<(K, V)>, keys: Seq<K>, key: K)
    requires
        !keys.contains(key),
    ensures
        values_of(entries.filter(key_among(keys.push(key)))).to_multiset() == values_of(
            entries.filter(key_among(keys)),
        ).to_multiset().add(group_of(entries, key).to_multiset()),
    decreases entries.len(),
{
    let wide = key_among::<K, V>(keys.push(key));
    let narrow = key_among::<K, V>(keys);
    if entries.len() > 0 {
        let rest = entries.drop_last();
        let x = entries.last();
        lemma_filter_split(rest, keys, key);
        assert(rest.push(x) =~= entries);
        rest.lemma_filter_push(x, wide);
        rest.lemma_filter_push(x, narrow);
        lemma_group_push(rest, x, key);
        assert(keys.push(key).contains(x.0) <==> keys.contains(x.0) || x.0 == key) by {
            if keys.push(key).contains(x.0) {
                let i = choose|i: int| 0 <= i < keys.len() + 1 && keys.push(key)[i] == x.0;
                if i < keys.len() {
                    assert(keys[i] == x.0);
                }
            }
            if keys.contains(x.0) {
                let i = choose|i: int| 0 <= i < keys.len() && keys[i] == x.0;
                assert(keys.push(key)[i] == x.0);
            }
            if x.0 == key {
                assert(keys.push(key)[keys.len() as int] == x.0);
            }
        }
        let fw = rest.filter(wide);
        let fn_ = rest.filter(narrow);
        let g = group_of(rest, key);
        assert(values_of(fw.push(x)) =~= values_of(fw).push(x.1));
        assert(values_of(fn_.push(x)) =~= values_of(fn_).push(x.1));
        let mw = values_of(fw).to_multiset();
        let mn = values_of(fn_).to_multiset();
        let mg = g.to_multiset();
        vstd::seq_lib::to_multiset_build(values_of(fw), x.1);
        vstd::seq_lib::to_multiset_build(values_of(fn_), x.1);
        vstd::seq_lib::to_multiset_build(g, x.1);
        assert(wide(x) <==> keys.push(key).contains(x.0));
        assert(narrow(x) <==> keys.contains(x.0));
        let want = values_of(entries.filter(wide)).to_multiset();
        let got = values_of(entries.filter(narrow)).to_multiset().add(
            group_of(entries, key).to_multiset(),
        );
        if x.0 == key {
            assert(want == mw.insert(x.1));
            assert(got == mn.add(mg.insert(x.1)));
            assert(want =~= got);
        } else if keys.contains(x.0) {
            assert(want == mw.insert(x.1));
            assert(got == mn.insert(x.1).add(mg));
            assert(want =~= got);
        } else {
            assert(want =~= got);
        }
    } else {
        reveal(Seq::filter);
        assert(values_of(entries.filter(wide)) =~= Seq::<V>::empty());
        assert(values_of(entries.filter(narrow)) =~= Seq::<V>::empty());
        assert(group_of(entries, key) =~= Seq::<V>::empty());
        Seq::<V>::empty().to_multiset_ensures();
        assert(Seq::<V>::empty().to_multiset() =~= Multiset::<V>::empty());
        assert(values_of(entries.filter(wide)).to_multiset() =~= values_of(
            entries.filter(narrow),
        ).to_multiset().add(group_of(entries, key).to_multiset()));
    }
}

proof fn lemma_groups_of_keys<K, V>(entries: Seq<(K, V)>, keys: Seq<K>)
    requires
        keys.no_duplicates(),
    ensures
        keys.map_values(|k: K| group_of(entries, k)).flatten().to_multiset() == values_of(
            entries.filter(key_among(keys)),
        ).to_multiset(),
    decreases keys.len(),
{
    let g = |k: K| group_of(entries, k);
    if keys.len() == 0 {
        lemma_filter_none(entries);
        assert(keys =~= Seq::<K>::empty());
        assert(keys.map_values(g) =~= Seq::<Seq<V>>::empty());
        assert(values_of(entries.filter(key_among(keys))) =~= Seq::<V>::empty());
    } else {
        let rest = keys.drop_last();
        let k = keys.last();
        assert(rest.no_duplicates());
        lemma_groups_of_keys(entries, rest);
        assert(!rest.contains(k)) by {
            if rest.contains(k) {
                let i = choose|i: int| 0 <= i < rest.len() && rest[i] == k;
                assert(keys[i] == keys[keys.len() - 1]);
            }
        }
        lemma_filter_split(entries, rest, k);
        assert(rest.push(k) =~= keys);
        assert(keys.map_values(g) =~= rest.map_values(g).push(g(k)));
        rest.map_values(g).lemma_flatten_push(g(k));
        vstd::seq_lib::lemma_multiset_commutative(rest.map_values(g).flatten(), g(k));
        assert(keys.map_values(g).flatten().to_multiset() =~= values_of(
            entries.filter(key_among(keys)),
        ).to_multiset());
    }
}

/// Taking every distinct key once, in any order, and collecting the result
/// of a search for each gives back every stored value, each as many times as
/// it was stored.
pub proof fn lemma_groups_cover<K, V>(entries: Seq<(K, V)>, keys: Seq<K>)
    requires
        keys.no_duplicates(),
        forall|k: K| keys.contains(k) <==> has_key(entries, k),
    ensures
        keys.map_values(|k: K| group_of(entries, k)).flatten().to_multiset() == values_of(
            entries,
        ).to_multiset(),
{
    assert forall|i: int| 0 <= i < entries.len() implies keys.contains(#[trigger] entries[i].0) by {
        assert(has_key(entries, entries[i].0));
    }
    lemma_filter_all(entries, keys);
    lemma_groups_of_keys(entries, keys);
}

/// Appends a reference to each value of `group`, in order, to `out`.
pub(crate) fn push_refs<'a, V>(out: &mut Vec<&'a V>, group: &'a Vec<V>)
    ensures
        final(out)@.unref() == old(out)@.unref() + group@,
{
    let ghost start = out@.unref();
    let mut i: usize = 0;
    while i < group.len()
        invariant
            i <= group@.len(),
            out@.unref() == start + group@.take(i as int),
        decreases group@.len() - i,
    {
        let ghost before = out@;
        out.push(&group[i]);
        i = i + 1;
        assert(before.unref().len() == before.len());
        assert(*out@[out@.len() - 1] == group@[i - 1]);
        let ghost want = start + group@.take(i as int);
        assert forall|j: int| 0 <= j < out@.len() implies *out@[j] == want[j] by {
            if j < before.len() {
                assert(out@[j] == before[j]);
                assert(before.unref()[j] == (start + group@.take(i - 1))[j]);
            }
        }
        assert(out@.unref() =~= want);
    }
    assert(group@.take(i as int) =~= group@);
}

/// A collection of values that can be searched by the key that an extractor
/// derives from each value.
///
/// `entries` is the history of the container: each value that was added,
/// paired with the key that was derived from it when it was added.
pub trait IndexedVector<K, V>: Sized {
    /// Each stored value with the key derived from it, in the order in which
    /// the values were added.
    spec fn entries(&self) -> Seq<(K, V)>;

    /// The container's internal index agrees with `entries`, and the key
    /// extractor accepts every value.
    spec fn well_formed(&self) -> bool;

    /// Whether the key extractor may derive `key` from `item`.
    spec fn extracts_key(&self, item: V, key: K) -> bool;

    /// Adds `item` at the end of the group of the key derived from it.
    fn insert(&mut self, item: V)
        requires
            old(self).well_formed(),
        ensures
            final(self).well_formed(),
            final(self).entries() == old(self).entries().push(
                (final(self).entries().last().0, item),
            ),
            old(self).extracts_key(item, final(self).entries().last().0),
            forall|v: V, k: K|
                #[trigger] final(self).extracts_key(v, k) == old(self).extracts_key(v, k),
    ;

    /// The values stored under `key`, in the order in which they were added.
    fn search(&self, key: &K) -> (r: Vec<&V>)
        requires
            self.well_formed(),
        ensures
            r@.unref() == group_of(self.entries(), *key),
    ;
}

} // verus!
