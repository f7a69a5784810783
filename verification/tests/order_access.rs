use multi_mut::order_backend::OrderIndexedMap;

fn populate_map() -> OrderIndexedMap<String> {
    let mut map = OrderIndexedMap::new();
    map.insert("key_one".into(), "value_one".into());
    map.insert("key_two".into(), "value_two".into());
    map.insert("key_three".into(), "value_three".into());
    map.insert("key_four".into(), "value_four".into());
    map.insert("key_five".into(), "value_five".into());
    map.insert("key_six".into(), "value_six".into());
    map
}

#[test]
fn lib_test_pair_success() {
    let mut map = populate_map();
    let (one, two): (&mut String, &mut String) = map.get_pair_mut("key_one", "key_two").unwrap();

    assert_eq!(one, "value_one");
    assert_eq!(two, "value_two");

    one.push_str("_edited");
    two.push_str("_edited");

    assert_eq!(one, "value_one_edited");
    assert_eq!(two, "value_two_edited");
}

#[test]
fn lib_test_pair_nonexistent_key() {
    let mut map = populate_map();
    assert!(map.get_pair_mut("key_one", "key_hundred").is_none());
}

#[test]
fn lib_test_pair_overlap() {
    let mut map = populate_map();
    assert!(map.get_pair_mut("key_one", "key_one").is_none());
}

#[test]
fn lib_test_pair_panic_success() {
    let mut map = populate_map();
    let (one, two): (&mut String, &mut String) = map.pair_mut("key_one", "key_two");

    assert_eq!(one, "value_one");
    assert_eq!(two, "value_two");

    one.push_str("_edited");
    two.push_str("_edited");

    assert_eq!(one, "value_one_edited");
    assert_eq!(two, "value_two_edited");
}

#[test]
fn lib_test_triple_success() {
    let mut map = populate_map();
    let (one, two, three): (&mut String, &mut String, &mut String) =
        map.get_triple_mut("key_one", "key_two", "key_three").unwrap();

    assert_eq!(one, "value_one");
    assert_eq!(two, "value_two");
    assert_eq!(three, "value_three");

    one.push_str("_edited");
    two.push_str("_edited");
    three.push_str("_edited");

    assert_eq!(one, "value_one_edited");
    assert_eq!(two, "value_two_edited");
    assert_eq!(three, "value_three_edited");
}

#[test]
fn lib_test_triple_nonexistent_key() {
    let mut map = populate_map();
    assert!(map.get_triple_mut("key_one", "key_hundred", "key_three").is_none());
}

#[test]
fn lib_test_triple_overlap_1() {
    let mut map = populate_map();
    assert!(map.get_triple_mut("key_one", "key_two", "key_one").is_none());
}

#[test]
fn lib_test_triple_overlap_2() {
    let mut map = populate_map();
    assert!(map.get_triple_mut("key_two", "key_two", "key_three").is_none());
}

#[test]
fn lib_test_triple_overlap_3() {
    let mut map = populate_map();
    assert!(map.get_triple_mut("key_one", "key_three", "key_three").is_none());
}

#[test]
fn lib_test_triple_overlap_4() {
    let mut map = populate_map();
    assert!(map.get_triple_mut("key_one", "key_one", "key_one").is_none());
}

#[test]
fn lib_test_triple_panic_success() {
    let mut map = populate_map();
    let (one, two, three): (&mut String, &mut String, &mut String) =
        map.triple_mut("key_one", "key_two", "key_three");

    assert_eq!(one, "value_one");
    assert_eq!(two, "value_two");
    assert_eq!(three, "value_three");

    one.push_str("_edited");
    two.push_str("_edited");
    three.push_str("_edited");

    assert_eq!(one, "value_one_edited");
    assert_eq!(two, "value_two_edited");
    assert_eq!(three, "value_three_edited");
}

#[test]
fn lib_test_multi_success() {
    let map = populate_map();

    let buffer = vec![0usize; 3];
    let mut wrapper = map.multi_mut(buffer);

    let one = wrapper.get_mut("key_one").unwrap();
    let two = wrapper.get_mut("key_two").unwrap();
    let three = wrapper.get_mut("key_three").unwrap();

    assert_eq!(wrapper.value(&one), "value_one");
    assert_eq!(wrapper.value(&two), "value_two");
    assert_eq!(wrapper.value(&three), "value_three");

    wrapper.value_mut(&one).push_str("_edited");
    wrapper.value_mut(&two).push_str("_edited");
    wrapper.value_mut(&three).push_str("_edited");

    assert_eq!(wrapper.value(&one), "value_one_edited");
    assert_eq!(wrapper.value(&two), "value_two_edited");
    assert_eq!(wrapper.value(&three), "value_three_edited");
}

#[test]
fn lib_test_multi_ref_success() {
    let map = populate_map();

    let buffer = vec![0usize; 3];
    let mut wrapper = map.multi_mut(buffer);

    let one = wrapper.mut_ref("key_one");
    let two = wrapper.mut_ref("key_two");
    let three = wrapper.mut_ref("key_three");

    assert_eq!(wrapper.value(&one), "value_one");
    assert_eq!(wrapper.value(&two), "value_two");
    assert_eq!(wrapper.value(&three), "value_three");

    wrapper.value_mut(&one).push_str("_edited");
    wrapper.value_mut(&two).push_str("_edited");
    wrapper.value_mut(&three).push_str("_edited");

    assert_eq!(wrapper.value(&one), "value_one_edited");
    assert_eq!(wrapper.value(&two), "value_two_edited");
    assert_eq!(wrapper.value(&three), "value_three_edited");
}

#[test]
fn lib_test_multi_nonexistent() {
    let map = populate_map();

    let buffer = vec![0usize; 3];
    let mut wrapper = map.multi_mut(buffer);

    assert!(wrapper.get_mut("key_hundred").is_none());
}

#[test]
fn lib_test_multi_iter_success() {
    let map = populate_map();

    let buffer = vec![0usize; 3];
    let keys = ["key_one", "key_two", "key_three"];
    let mut wrapper = map.iter_multi_mut(&keys, buffer);

    let one = wrapper.next().unwrap();
    let two = wrapper.next().unwrap();
    let three = wrapper.next().unwrap();

    let mut session = wrapper.into_session();

    assert_eq!(session.value(&one), "value_one");
    assert_eq!(session.value(&two), "value_two");
    assert_eq!(session.value(&three), "value_three");

    session.value_mut(&one).push_str("_edited");
    session.value_mut(&two).push_str("_edited");
    session.value_mut(&three).push_str("_edited");

    assert_eq!(session.value(&one), "value_one_edited");
    assert_eq!(session.value(&two), "value_two_edited");
    assert_eq!(session.value(&three), "value_three_edited");
}

#[test]
fn lib_test_multi_iter_over_capacity() {
    let map = populate_map();

    let buffer = vec![0usize; 3];
    let keys = ["key_one", "key_two", "key_three"];
    let mut wrapper = map.iter_multi_mut(&keys, buffer);

    let _one = wrapper.next().unwrap();
    let _two = wrapper.next().unwrap();
    let _three = wrapper.next().unwrap();

    assert!(wrapper.next().is_none());
}
