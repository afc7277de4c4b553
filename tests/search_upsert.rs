use sorted_entries::kv::{search_by_key, upsert_object_key, KeyValue};
use sorted_entries::property::Property;

fn kvs(pairs: &[(&str, i32)]) -> Vec<KeyValue<i32>> {
    pairs.iter().map(|(k, v)| KeyValue::new(k.to_string(), *v)).collect()
}

fn props(pairs: &[(&str, i32)]) -> Vec<Property<i32>> {
    pairs.iter().map(|(k, v)| Property::new(*k, *v)).collect()
}

fn pairs_of(v: &[KeyValue<i32>]) -> Vec<(String, i32)> {
    v.iter().map(|e| (e.key_ref().clone(), *e.value_ref())).collect()
}

fn is_strictly_sorted(v: &[KeyValue<i32>]) -> bool {
    v.windows(2).all(|w| w[0].key_ref() < w[1].key_ref())
}

#[test]
fn search_in_empty_is_not_found_at_zero() {
    let v: Vec<KeyValue<i32>> = Vec::new();
    assert_eq!(search_by_key(&v, "anything"), Err(0));
    assert_eq!(search_by_key(&v, ""), Err(0));
}

#[test]
fn upserts_in_any_order_give_sorted_sequence() {
    let mut v: Vec<KeyValue<i32>> = Vec::new();
    upsert_object_key(&mut v, KeyValue::new("b".to_string(), 1));
    upsert_object_key(&mut v, KeyValue::new("a".to_string(), 2));
    upsert_object_key(&mut v, KeyValue::new("c".to_string(), 3));
    assert_eq!(
        pairs_of(&v),
        vec![("a".to_string(), 2), ("b".to_string(), 1), ("c".to_string(), 3)]
    );
}

#[test]
fn absent_key_between_two_is_not_found_at_one() {
    let v = kvs(&[("a", 1), ("c", 3)]);
    assert_eq!(search_by_key(&v, "b"), Err(1));
}

#[test]
fn middle_key_is_found() {
    let v = kvs(&[("a", 1), ("b", 2), ("c", 3)]);
    assert_eq!(search_by_key(&v, "b"), Ok(1));
}

#[test]
fn single_entry_search() {
    let v = kvs(&[("m", 1)]);
    assert_eq!(search_by_key(&v, "m"), Ok(0));
    assert_eq!(search_by_key(&v, "a"), Err(0));
    assert_eq!(search_by_key(&v, "z"), Err(1));
}

#[test]
fn every_key_is_found_at_its_position() {
    for n in 0..40usize {
        let keys: Vec<String> = (0..n).map(|i| format!("k{:03}", i * 2)).collect();
        let v: Vec<KeyValue<i32>> =
            keys.iter().map(|k| KeyValue::new(k.clone(), 0)).collect();
        for (i, k) in keys.iter().enumerate() {
            assert_eq!(search_by_key(&v, k), Ok(i));
        }
        assert_eq!(search_by_key(&v, "k"), Err(0));
        for i in 0..n {
            let absent = format!("k{:03}", i * 2 + 1);
            assert_eq!(search_by_key(&v, &absent), Err(i + 1));
        }
    }
}

#[test]
fn keys_outside_the_range_go_to_the_ends() {
    let v = kvs(&[("b", 1), ("d", 2), ("f", 3), ("h", 4)]);
    assert_eq!(search_by_key(&v, "a"), Err(0));
    assert_eq!(search_by_key(&v, ""), Err(0));
    assert_eq!(search_by_key(&v, "z"), Err(4));
    assert_eq!(search_by_key(&v, "hh"), Err(4));
}

#[test]
fn prefix_sorts_before_longer_key() {
    let v = kvs(&[("ab", 1), ("abc", 2)]);
    assert_eq!(search_by_key(&v, "a"), Err(0));
    assert_eq!(search_by_key(&v, "abb"), Err(1));
    assert_eq!(search_by_key(&v, "abc"), Ok(1));
    assert_eq!(search_by_key(&v, "abcd"), Err(2));
}

#[test]
fn non_ascii_keys_order_by_code_point() {
    let mut v: Vec<KeyValue<i32>> = Vec::new();
    for (k, x) in [("é", 1), ("z", 2), ("a", 3), ("日本", 4)] {
        upsert_object_key(&mut v, KeyValue::new(k.to_string(), x));
    }
    let keys: Vec<&str> = v.iter().map(|e| e.key_ref().as_str()).collect();
    assert_eq!(keys, vec!["a", "z", "é", "日本"]);
}

#[test]
fn many_upserts_stay_strictly_sorted() {
    let mut v: Vec<KeyValue<i32>> = Vec::new();
    let mut x: u32 = 7;
    for i in 0..300 {
        x = x.wrapping_mul(1103515245).wrapping_add(12345);
        let key = format!("{}", (x >> 16) % 97);
        upsert_object_key(&mut v, KeyValue::new(key, i));
        assert!(is_strictly_sorted(&v));
    }
    assert!(v.len() <= 97);
}

#[test]
fn repeated_key_keeps_one_entry_with_last_value() {
    let mut v = kvs(&[("a", 1), ("c", 3)]);
    upsert_object_key(&mut v, KeyValue::new("b".to_string(), 10));
    let len_after_first = v.len();
    upsert_object_key(&mut v, KeyValue::new("b".to_string(), 20));
    assert_eq!(v.len(), len_after_first);
    assert_eq!(v.iter().filter(|e| e.key_ref() == "b").count(), 1);
    assert_eq!(search_by_key(&v, "b"), Ok(1));
    assert_eq!(*v[1].value_ref(), 20);
}

#[test]
fn upsert_replaces_existing_value_in_place() {
    let mut v = kvs(&[("a", 1), ("b", 2), ("c", 3)]);
    upsert_object_key(&mut v, KeyValue::new("c".to_string(), 30));
    assert_eq!(
        pairs_of(&v),
        vec![("a".to_string(), 1), ("b".to_string(), 2), ("c".to_string(), 30)]
    );
}

#[test]
fn empty_key_sorts_first() {
    let mut v = kvs(&[("a", 1)]);
    upsert_object_key(&mut v, KeyValue::new(String::new(), 0));
    assert_eq!(search_by_key(&v, ""), Ok(0));
    assert_eq!(search_by_key(&v, "a"), Ok(1));
}

#[test]
fn equality_and_order_ignore_the_value() {
    let a1 = KeyValue::new("a".to_string(), 1);
    let a2 = KeyValue::new("a".to_string(), 2);
    let b = KeyValue::new("b".to_string(), 0);
    assert!(a1 == a2);
    assert!(a1 != b);
    assert_eq!(a1.partial_cmp(&a2), Some(std::cmp::Ordering::Equal));
    assert_eq!(a1.partial_cmp(&b), Some(std::cmp::Ordering::Less));
    assert_eq!(b.partial_cmp(&a2), Some(std::cmp::Ordering::Greater));
    assert!(a1 < b && b > a2 && a1 <= a2 && a1 >= a2);
}

#[test]
fn key_value_accessors() {
    let mut kv = KeyValue::new("name".to_string(), vec![1, 2]);
    assert_eq!(kv.key_ref(), "name");
    assert_eq!(kv.value_ref(), &vec![1, 2]);
    kv.value_mut().push(3);
    assert_eq!(kv.value_ref(), &vec![1, 2, 3]);
    kv.set_value(vec![9]);
    assert_eq!(kv.key_ref(), "name");
    assert_eq!(kv.clone().value(), vec![9]);
    assert_eq!(kv.key(), "name".to_string());
}

#[test]
fn property_builds_key_from_display() {
    let p = Property::new(&42, "x");
    assert_eq!(p.key_ref(), "42");
    let q = Property::new("title", "y");
    assert_eq!(q.key_ref(), "title");
    let owned = String::from("owned");
    assert_eq!(Property::new(&owned, 0).key(), "owned");
}

#[test]
fn property_sequence_search_and_upsert() {
    let mut v = props(&[("a", 1), ("c", 3)]);
    assert_eq!(sorted_entries::property::search_by_key(&v, "b"), Err(1));
    sorted_entries::property::upsert_object_key(&mut v, Property::new("b", 2));
    sorted_entries::property::upsert_object_key(&mut v, Property::new("a", 5));
    let got: Vec<(String, i32)> =
        v.iter().map(|p| (p.key_ref().clone(), *p.value_ref())).collect();
    assert_eq!(got, vec![("a".to_string(), 5), ("b".to_string(), 2), ("c".to_string(), 3)]);
}

#[test]
fn property_accessors_and_order() {
    let mut p = Property::new("k", 1);
    *p.value_mut() += 1;
    assert_eq!(*p.value_ref(), 2);
    p.set_value(7);
    assert_eq!(p.clone().value(), 7);
    assert!(p == Property::new("k", 0));
    assert!(p < Property::new("l", 0));
    assert!(p > Property::new("", 0));
}
