use multi_mut::hash_backend::HashIndexedMap;
use multi_mut::order_backend::OrderIndexedMap;

#[test]
fn hash_pair_scenario_mutation_is_independent() {
    let mut map = HashIndexedMap::new();
    map.insert("x".into(), 1);
    map.insert("y".into(), 2);
    map.insert("z".into(), 3);

    let (first, second): (&mut i32, &mut i32) = map.pair_mut("x", "y");
    assert_eq!(*first, 1);
    assert_eq!(*second, 2);
    *first = 10;

    assert_eq!(map.get("x"), Some(&10));
    assert_eq!(map.get("y"), Some(&2));
    assert_eq!(map.get("z"), Some(&3));
}

#[test]
fn order_pair_scenario_mutation_is_independent() {
    let mut map = OrderIndexedMap::new();
    map.insert("x".into(), 1);
    map.insert("y".into(), 2);
    map.insert("z".into(), 3);

    let (first, second): (&mut i32, &mut i32) = map.pair_mut("x", "y");
    assert_eq!(*first, 1);
    assert_eq!(*second, 2);
    *first = 10;

    assert_eq!(map.get("x"), Some(&10));
    assert_eq!(map.get("y"), Some(&2));
    assert_eq!(map.get("z"), Some(&3));
}

#[test]
fn hash_iter_truncates_at_capacity() {
    let mut map = HashIndexedMap::new();
    map.insert("a".into(), 1);
    map.insert("b".into(), 2);
    map.insert("c".into(), 3);

    let keys = ["a", "b", "c"];
    let buffer = vec![0usize; 2];
    let mut it = map.iter_multi_mut(&keys, buffer);

    let first = it.next().unwrap();
    let second = it.next().unwrap();
    assert!(it.next().is_none());

    let mut session = it.into_session();
    assert_eq!(*session.value(&first), 1);
    assert_eq!(*session.value(&second), 2);
    *session.value_mut(&first) = 10;
    *session.value_mut(&second) = 20;

    let (map, buffer) = session.into_inner();
    assert_eq!(buffer.len(), 2);
    assert_eq!(map.get("a"), Some(&10));
    assert_eq!(map.get("b"), Some(&20));
    assert_eq!(map.get("c"), Some(&3));
}

#[test]
fn order_iter_truncates_at_capacity() {
    let mut map = OrderIndexedMap::new();
    map.insert("a".into(), 1);
    map.insert("b".into(), 2);
    map.insert("c".into(), 3);

    let keys = ["a", "b", "c"];
    let buffer = vec![0usize; 2];
    let mut it = map.iter_multi_mut(&keys, buffer);

    let first = it.next().unwrap();
    let second = it.next().unwrap();
    assert!(it.next().is_none());

    let mut session = it.into_session();
    assert_eq!(*session.value(&first), 1);
    assert_eq!(*session.value(&second), 2);
    *session.value_mut(&first) = 10;
    *session.value_mut(&second) = 20;

    let (map, buffer) = session.into_inner();
    assert_eq!(buffer.len(), 2);
    assert_eq!(map.get("a"), Some(&10));
    assert_eq!(map.get("b"), Some(&20));
    assert_eq!(map.get("c"), Some(&3));
}

#[test]
fn hash_insert_replaces_value_in_place() {
    let mut map = HashIndexedMap::new();
    map.insert("k".into(), 1);
    map.insert("other".into(), 7);
    map.insert("k".into(), 2);

    assert_eq!(map.get("k"), Some(&2));
    assert_eq!(map.get("other"), Some(&7));
    assert_eq!(map.get("absent"), None);
}

#[test]
fn order_insert_replaces_value_in_place() {
    let mut map = OrderIndexedMap::new();
    map.insert("k".into(), 1);
    map.insert("other".into(), 7);
    map.insert("k".into(), 2);

    assert_eq!(map.get("k"), Some(&2));
    assert_eq!(map.get("other"), Some(&7));
    assert_eq!(map.get("absent"), None);
}

#[test]
fn order_lookup_after_unsorted_insertion() {
    let mut map = OrderIndexedMap::new();
    map.insert("pear".into(), 4);
    map.insert("apple".into(), 1);
    map.insert("quince".into(), 5);
    map.insert("fig".into(), 2);
    map.insert("banana".into(), 6);
    map.insert("lime".into(), 3);

    assert_eq!(map.get("apple"), Some(&1));
    assert_eq!(map.get("banana"), Some(&6));
    assert_eq!(map.get("fig"), Some(&2));
    assert_eq!(map.get("lime"), Some(&3));
    assert_eq!(map.get("pear"), Some(&4));
    assert_eq!(map.get("quince"), Some(&5));
    assert_eq!(map.get("aardvark"), None);
    assert_eq!(map.get("zebra"), None);
    assert_eq!(map.get("carrot"), None);
}

#[test]
fn hash_multi_claims_are_independent() {
    let mut map = HashIndexedMap::new();
    map.insert("left".into(), 100);
    map.insert("right".into(), 200);

    let buffer = vec![0usize; 2];
    let mut wrapper = map.multi_mut(buffer);
    let left = wrapper.mut_ref("left");
    let right = wrapper.mut_ref("right");

    *wrapper.value_mut(&left) = 111;
    assert_eq!(*wrapper.value(&right), 200);
    *wrapper.value_mut(&right) = 222;
    assert_eq!(*wrapper.value(&left), 111);

    let (map, _buffer) = wrapper.into_inner();
    assert_eq!(map.get("left"), Some(&111));
    assert_eq!(map.get("right"), Some(&222));
}

#[test]
fn order_multi_claims_are_independent() {
    let mut map = OrderIndexedMap::new();
    map.insert("left".into(), 100);
    map.insert("right".into(), 200);

    let buffer = vec![0usize; 2];
    let mut wrapper = map.multi_mut(buffer);
    let left = wrapper.mut_ref("left");
    let right = wrapper.mut_ref("right");

    *wrapper.value_mut(&left) = 111;
    assert_eq!(*wrapper.value(&right), 200);
    *wrapper.value_mut(&right) = 222;
    assert_eq!(*wrapper.value(&left), 111);

    let (map, _buffer) = wrapper.into_inner();
    assert_eq!(map.get("left"), Some(&111));
    assert_eq!(map.get("right"), Some(&222));
}

#[test]
fn hash_iter_yields_in_key_order() {
    let mut map = HashIndexedMap::new();
    map.insert("a".into(), 1);
    map.insert("b".into(), 2);
    map.insert("c".into(), 3);

    let keys = ["c", "a", "b"];
    let buffer = vec![0usize; 3];
    let mut it = map.iter_multi_mut(&keys, buffer);

    let first = it.next().unwrap();
    let second = it.next().unwrap();
    let third = it.next().unwrap();
    assert!(it.next().is_none());

    let session = it.into_session();
    assert_eq!(*session.value(&first), 3);
    assert_eq!(*session.value(&second), 1);
    assert_eq!(*session.value(&third), 2);
}

#[test]
fn order_prefix_and_empty_keys_stay_distinct() {
    let mut map = OrderIndexedMap::new();
    map.insert("abc".into(), 3);
    map.insert("".into(), 0);
    map.insert("ab".into(), 2);
    map.insert("a".into(), 1);

    assert_eq!(map.get(""), Some(&0));
    assert_eq!(map.get("a"), Some(&1));
    assert_eq!(map.get("ab"), Some(&2));
    assert_eq!(map.get("abc"), Some(&3));
    assert_eq!(map.get("abcd"), None);

    let (shorter, longer) = map.pair_mut("ab", "abc");
    *shorter = 20;
    *longer = 30;
    assert_eq!(map.get("ab"), Some(&20));
    assert_eq!(map.get("abc"), Some(&30));
    assert_eq!(map.get("a"), Some(&1));
}

#[test]
fn hash_prefix_and_empty_keys_stay_distinct() {
    let mut map = HashIndexedMap::new();
    map.insert("abc".into(), 3);
    map.insert("".into(), 0);
    map.insert("ab".into(), 2);

    assert_eq!(map.get(""), Some(&0));
    assert_eq!(map.get("ab"), Some(&2));
    assert_eq!(map.get("abc"), Some(&3));
    assert_eq!(map.get("a"), None);

    let (empty, longer) = map.pair_mut("", "abc");
    *empty = 10;
    *longer = 30;
    assert_eq!(map.get(""), Some(&10));
    assert_eq!(map.get("abc"), Some(&30));
    assert_eq!(map.get("ab"), Some(&2));
}

#[test]
fn hash_pair_soft_and_hard_agree_on_success() {
    let mut map = HashIndexedMap::new();
    map.insert("p".into(), 1);
    map.insert("q".into(), 2);

    {
        let (a, b) = map.get_pair_mut("p", "q").unwrap();
        assert_eq!((*a, *b), (1, 2));
    }
    let (a, b) = map.pair_mut("p", "q");
    assert_eq!((*a, *b), (1, 2));
}
