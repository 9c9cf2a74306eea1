use ordered_dict::dictionary::Dictionary;
use ordered_dict::has_same_elements;
use ordered_dict::render::render_entries;

#[test]
fn parallel_sequences_pair_up() {
    let keys: Vec<u16> = vec![10, 20, 30];
    let vals: Vec<u16> = vec![1, 2, 3];
    let d: Dictionary<u16, u16> = Dictionary::from_vecs(keys, vals);

    assert_eq!(d.len(), 3);
    assert_eq!(d.get(&10).unwrap(), 1);
    assert_eq!(d.get(&20).unwrap(), 2);
    assert_eq!(d.get(&30).unwrap(), 3);
}

#[test]
fn from_vecs_keeps_forward_order() {
    let keys: Vec<u8> = vec![1, 2];
    let vals: Vec<u8> = vec![3, 4];
    let d: Dictionary<u8, u8> = Dictionary::from_vecs(keys, vals);

    assert_eq!(d.iter(), vec![(1, 3), (2, 4)]);
}

#[test]
fn with_capacity_yields_empty() {
    let d: Dictionary<u8, u8> = Dictionary::with_capacity(5);

    assert_eq!(d.len(), 0);
    assert!(d.is_empty());
}

#[test]
fn insert_replaces_value_in_place() {
    let mut d: Dictionary<u8, u8> = Dictionary::new();

    assert_eq!(d.insert(1, 2), None);
    assert_eq!(d.get(&1).unwrap(), 2);
    assert_eq!(d.insert(1, 9), Some(2));
    assert_eq!(d.get(&1).unwrap(), 9);
    assert_eq!(d.len(), 1);
}

#[test]
fn insert_keeps_position_of_existing_key() {
    let tuples: Vec<(u8, u8)> = vec![(1, 6), (2, 7)];
    let mut d: Dictionary<u8, u8> = Dictionary::from_tuples(tuples);
    d.insert(1, 9);

    assert_eq!(d.iter(), vec![(1, 9), (2, 7)]);
}

#[test]
fn remove_present_key_shrinks_by_one() {
    let tuples: Vec<(u8, u8)> = vec![(1, 6), (2, 7), (3, 8)];
    let mut d: Dictionary<u8, u8> = Dictionary::from_tuples(tuples);

    assert_eq!(d.remove(&2), Some(7));
    assert!(!d.contains_key(&2));
    assert_eq!(d.len(), 2);
}

#[test]
fn remove_absent_key_is_a_no_op() {
    let tuples: Vec<(u8, u8)> = vec![(1, 6)];
    let mut d: Dictionary<u8, u8> = Dictionary::from_tuples(tuples);

    assert_eq!(d.remove(&2), None);
    assert_eq!(d.len(), 1);
    assert!(d.contains_key(&1));
}

#[test]
fn remove_preserves_order_of_rest() {
    let tuples: Vec<(u8, u8)> = vec![(1, 6), (2, 7), (3, 8), (4, 9), (5, 0)];
    let mut d: Dictionary<u8, u8> = Dictionary::from_tuples(tuples);
    d.remove(&2);

    assert_eq!(d.iter(), vec![(1, 6), (3, 8), (4, 9), (5, 0)]);
}

#[test]
fn remove_entry_returns_key_and_value() {
    let tuples: Vec<(u8, u8)> = vec![(1, 6), (2, 7)];
    let mut d: Dictionary<u8, u8> = Dictionary::from_tuples(tuples);

    assert_eq!(d.remove_entry(&2), Some((2, 7)));
    assert_eq!(d.remove_entry(&2), None);
}

#[test]
fn clear_twice_leaves_empty_both_times() {
    let tuples: Vec<(u8, u8)> = vec![(1, 6), (2, 7)];
    let mut d: Dictionary<u8, u8> = Dictionary::from_tuples(tuples);

    d.clear();
    assert!(d.is_empty());
    d.clear();
    assert!(d.is_empty());
    d.insert(3, 4);
    assert_eq!(d.len(), 1);
}

#[test]
fn round_trip_keeps_every_pair() {
    let mut d: Dictionary<u32, u32> = Dictionary::new();
    d.insert(100, 1);
    d.insert(200, 2);
    d.insert(300, 3);
    d.insert(400, 4);

    assert_eq!(d.iter(), vec![(100, 1), (200, 2), (300, 3), (400, 4)]);
}

#[test]
fn insert_two_then_lookup() {
    let mut d: Dictionary<u8, u8> = Dictionary::new();
    d.insert(1, 2);
    d.insert(3, 4);

    assert_eq!(d.get(&3).unwrap(), 4);
}

#[test]
fn build_then_remove_scenario() {
    let tuples: Vec<(u8, u8)> = vec![(1, 6), (2, 7), (3, 8), (4, 9), (5, 0)];
    let mut d: Dictionary<u8, u8> = Dictionary::from_tuples(tuples);

    assert_eq!(d.len(), 5);
    assert_eq!(d.get(&1).unwrap(), 6);
    assert_eq!(d.remove(&1), Some(6));
    assert_eq!(d.len(), 4);
    assert!(!d.contains_key(&1));
}

#[test]
fn iterable_constructor_second_pair() {
    let tuples: Vec<(u8, u8)> = vec![(1, 3), (5, 7), (9, 11), (13, 15)];
    let d: Dictionary<u8, u8> = Dictionary::from_iter(tuples);

    assert_eq!(d.iter()[1], (5, 7));
}

#[test]
fn empty_iterable_yields_empty_dictionary() {
    let tuples: Vec<(u8, u8)> = Vec::new();
    let d: Dictionary<u8, u8> = Dictionary::from_iter(tuples);

    assert!(d.is_empty());
}

#[test]
fn get_full_and_index_lookups() {
    let tuples: Vec<(u8, u8)> = vec![(7, 1), (8, 2), (9, 3)];
    let d: Dictionary<u8, u8> = Dictionary::from_tuples(tuples);

    assert_eq!(d.get_full(&8), Some((1, 8, 2)));
    assert_eq!(d.get_index_of(&9), Some(2));
    assert_eq!(d.get_key_value(&7), Some((7, 1)));
    assert_eq!(d.get_full(&5), None);
    assert_eq!(d.get_index_of(&5), None);
    assert_eq!(d.get_key_value(&5), None);
    assert_eq!(d.get(&5), None);
}

#[test]
fn equality_ignores_order() {
    let a: Dictionary<u8, u8> = Dictionary::from_tuples(vec![(1, 2), (3, 4)]);
    let b: Dictionary<u8, u8> = Dictionary::from_tuples(vec![(3, 4), (1, 2)]);
    let c: Dictionary<u8, u8> = Dictionary::from_tuples(vec![(1, 2), (3, 5)]);

    assert!(a == b);
    assert!(a != c);
}

#[test]
fn same_elements_in_either_order() {
    let v1: Vec<u8> = vec![1, 2, 3];
    let v2: Vec<u8> = vec![3, 2, 1, 4];

    assert!(has_same_elements(&v1, &v2));
    assert!(!has_same_elements(&v2, &v1));
}

#[test]
fn rendering_joins_entries() {
    let keys: Vec<String> = vec![String::from("1"), String::from("3")];
    let vals: Vec<String> = vec![String::from("2"), String::from("4")];

    assert_eq!(render_entries(&keys, &vals), "{1: 2, 3: 4}");
}

#[test]
fn rendering_empty_dictionary() {
    let keys: Vec<String> = Vec::new();
    let vals: Vec<String> = Vec::new();

    assert_eq!(render_entries(&keys, &vals), "{}");
}
