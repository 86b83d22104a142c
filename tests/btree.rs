use indexed_vector::{BTreeIndexedVector, IndexedVector, KeyBound};

#[test]
fn test_btree_indexed_vector() {
    let mut map = BTreeIndexedVector::new(
        vec![1, 2, 3, 4, 5, 6, 7, 8, 9, 10],
        Box::new(|x: &i32| x % 3),
    );
    assert_eq!(map.search(&0), vec![&3, &6, &9]);
    assert_eq!(map.search(&1), vec![&1, &4, &7, &10]);
    assert_eq!(map.search(&2), vec![&2, &5, &8]);

    map.insert(11);
    assert_eq!(map.search(&0), vec![&3, &6, &9]);
    assert_eq!(map.search(&1), vec![&1, &4, &7, &10]);
    assert_eq!(map.search(&2), vec![&2, &5, &8, &11]);
}

#[test]
fn test_search_range() {
    let map = BTreeIndexedVector::new(
        vec![1, 2, 3, 4, 5, 6, 7, 8, 9, 10],
        Box::new(|x: &i32| x % 3),
    );
    let mut res = map.search_range((KeyBound::Included(0), KeyBound::Excluded(2)));
    res.sort();
    assert_eq!(res, vec![&1, &3, &4, &6, &7, &9, &10]);
}

fn sample() -> BTreeIndexedVector<i32, i32, fn(&i32) -> i32> {
    fn rem3(x: &i32) -> i32 {
        x % 3
    }
    BTreeIndexedVector::new(vec![1, 2, 3, 4, 5, 6, 7, 8, 9, 10], rem3 as fn(&i32) -> i32)
}

#[test]
fn range_is_ascending_by_key_then_by_insertion() {
    let map = sample();
    let res = map.search_range((KeyBound::Included(0), KeyBound::Excluded(2)));
    assert_eq!(res, vec![&3, &6, &9, &1, &4, &7, &10]);
}

#[test]
fn range_with_included_upper_end() {
    let map = sample();
    let res = map.search_range((KeyBound::Excluded(0), KeyBound::Included(2)));
    assert_eq!(res, vec![&1, &4, &7, &10, &2, &5, &8]);
}

#[test]
fn range_unbounded_takes_every_key() {
    let map = sample();
    let res = map.search_range((KeyBound::Unbounded, KeyBound::Unbounded));
    assert_eq!(res, vec![&3, &6, &9, &1, &4, &7, &10, &2, &5, &8]);
}

#[test]
fn range_half_unbounded() {
    let map = sample();
    assert_eq!(
        map.search_range((KeyBound::Included(2), KeyBound::Unbounded)),
        vec![&2, &5, &8]
    );
    assert_eq!(
        map.search_range((KeyBound::Unbounded, KeyBound::Excluded(1))),
        vec![&3, &6, &9]
    );
}

#[test]
fn inverted_range_is_empty() {
    let map = sample();
    assert!(map.search_range((KeyBound::Included(2), KeyBound::Included(0))).is_empty());
    assert!(map.search_range((KeyBound::Included(1), KeyBound::Excluded(1))).is_empty());
}

#[test]
fn range_over_absent_keys_is_empty() {
    let map = sample();
    assert!(map.search_range((KeyBound::Included(5), KeyBound::Included(9))).is_empty());
    assert!(map.search_range((KeyBound::Unbounded, KeyBound::Excluded(0))).is_empty());
}

#[test]
fn range_sees_inserted_values() {
    let mut map = sample();
    map.insert(11);
    map.insert(-3);
    assert_eq!(
        map.search_range((KeyBound::Included(2), KeyBound::Included(2))),
        vec![&2, &5, &8, &11]
    );
    assert_eq!(
        map.search_range((KeyBound::Unbounded, KeyBound::Included(0))),
        vec![&3, &6, &9, &-3]
    );
}

#[test]
fn range_keeps_each_key_group_once() {
    let map = sample();
    let res = map.search_range((KeyBound::Included(0), KeyBound::Included(2)));
    let mut sorted = res.clone();
    sorted.sort();
    assert_eq!(sorted, vec![&1, &2, &3, &4, &5, &6, &7, &8, &9, &10]);
}

#[test]
fn repeated_reads_agree() {
    let map = sample();
    assert_eq!(map.search(&1), map.search(&1));
    let r = (KeyBound::Included(0), KeyBound::Excluded(2));
    let again = (KeyBound::Included(0), KeyBound::Excluded(2));
    assert_eq!(map.search_range(r), map.search_range(again));
}

#[test]
fn btree_search_on_empty_container_finds_nothing() {
    let map = BTreeIndexedVector::new(Vec::<i32>::new(), |x: &i32| x % 3);
    assert!(map.search(&0).is_empty());
    assert!(map.search_range((KeyBound::Unbounded, KeyBound::Unbounded)).is_empty());
}

#[test]
fn btree_search_for_absent_key_finds_nothing() {
    let map = sample();
    assert!(map.search(&3).is_empty());
    assert!(map.search(&-2).is_empty());
}

#[test]
fn btree_groups_keep_insertion_order() {
    let mut map = BTreeIndexedVector::new(vec![7, 1, 4], |x: &i32| x % 3);
    map.insert(10);
    map.insert(-2);
    assert_eq!(map.search(&1), vec![&7, &1, &4, &10]);
    assert_eq!(map.search(&-2), vec![&-2]);
}
