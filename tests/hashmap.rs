use indexed_vector::{HashIndexedVector, IndexedVector};

#[test]
fn test_hash_indexed_map() {
    let mut map = HashIndexedVector::new(
        vec![1, 2, 3, 4, 5, 6, 7, 8, 9, 10],
        Box::new(|x: &i32| x % 3),
    );
    assert_eq!(map.search(&0).into_iter().collect::<Vec<_>>(), vec![&3, &6, &9]);
    assert_eq!(map.search(&1).into_iter().collect::<Vec<_>>(), vec![&1, &4, &7, &10]);
    assert_eq!(map.search(&2).into_iter().collect::<Vec<_>>(), vec![&2, &5, &8]);
    map.insert(11);
    assert_eq!(map.search(&0).into_iter().collect::<Vec<_>>(), vec![&3, &6, &9]);
    assert_eq!(map.search(&1).into_iter().collect::<Vec<_>>(), vec![&1, &4, &7, &10]);
    assert_eq!(map.search(&2).into_iter().collect::<Vec<_>>(), vec![&2, &5, &8, &11]);
}

#[test]
fn hash_search_on_empty_container_finds_nothing() {
    let map = HashIndexedVector::new(Vec::<i32>::new(), |x: &i32| x % 3);
    assert!(map.search(&0).is_empty());
    assert!(map.search(&7).is_empty());
}

#[test]
fn hash_search_for_absent_key_finds_nothing() {
    let map = HashIndexedVector::new(vec![1, 2, 3], |x: &i32| x % 3);
    assert!(map.search(&5).is_empty());
    assert!(map.search(&-1).is_empty());
}

#[test]
fn hash_insert_into_empty_container_creates_group() {
    let mut map = HashIndexedVector::new(Vec::<u32>::new(), |x: &u32| x / 10);
    map.insert(42);
    map.insert(47);
    map.insert(13);
    assert_eq!(map.search(&4), vec![&42, &47]);
    assert_eq!(map.search(&1), vec![&13]);
    assert!(map.search(&0).is_empty());
}

#[test]
fn hash_equal_values_are_all_kept() {
    let mut map = HashIndexedVector::new(vec![5, 5, 2], |x: &i32| x % 2);
    map.insert(5);
    assert_eq!(map.search(&1), vec![&5, &5, &5]);
    assert_eq!(map.search(&0), vec![&2]);
}

#[test]
fn hash_groups_cover_every_value() {
    let data = vec![10, 3, 7, 10, 22, 15, 8];
    let mut map = HashIndexedVector::new(data.clone(), |x: &i32| x % 4);
    map.insert(9);
    let mut all: Vec<i32> = Vec::new();
    for key in 0..4 {
        for v in map.search(&key) {
            all.push(*v);
        }
    }
    all.sort();
    let mut expected = data;
    expected.push(9);
    expected.sort();
    assert_eq!(all, expected);
}

#[test]
fn hash_repeated_search_agrees() {
    let map = HashIndexedVector::new(vec![1, 2, 3, 4], |x: &i32| x % 2);
    let first = map.search(&1);
    let second = map.search(&1);
    assert_eq!(first, second);
    assert_eq!(first, vec![&1, &3]);
}

#[test]
fn hash_key_can_be_a_field() {
    let users = vec![(20u16, "Tom"), (20, "Jane"), (30, "Ivan")];
    let map = HashIndexedVector::new(users, |u: &(u16, &str)| u.0);
    assert_eq!(map.search(&20), vec![&(20, "Tom"), &(20, "Jane")]);
    assert_eq!(map.search(&30), vec![&(30, "Ivan")]);
}
