use linked_hashmap::key::Hashable;
use linked_hashmap::map::{ConstructError, LinkedHashmap};

#[test]
fn it_works() {
    assert_eq!(2 + 2, 4);
}

#[test]
fn make_map() {
    let _map = LinkedHashmap::<String, String>::new(5).unwrap();
}

#[test]
fn put() {
    let mut map = LinkedHashmap::<String, String>::new(5).unwrap();
    map.put("a".to_string(), "b".to_string());
}

#[test]
fn get() {
    let mut map = LinkedHashmap::<String, String>::new(5).unwrap();
    map.put("key1".to_string(), "val1".to_string());
    assert_eq!(&"val1".to_string(), map.get("key1".to_string()).expect("get failed"));
}

#[test]
fn get_mut() {
    let mut map = LinkedHashmap::<String, String>::new(5).unwrap();
    map.put("key1".to_string(), "val1".to_string());
    map.get_mut("key1".to_string()).unwrap().push('d');
    assert_eq!(&"val1d".to_string(), map.get("key1".to_string()).expect("get failed"));
}

#[test]
fn remove() {
    let mut map = LinkedHashmap::<String, String>::new(5).unwrap();
    map.put("key1".to_string(), "val1".to_string());
    map.remove("key1".to_string());
    assert_eq!(None, map.get("key1".to_string()));
}

#[test]
fn collide() {
    let mut map = LinkedHashmap::<String, String>::new(1).unwrap();
    map.put("key1".to_string(), "val1".to_string());
    map.put("key2".to_string(), "val2".to_string());
    map.remove("key1".to_string());
    assert_eq!(&"val2".to_string(), map.get("key2".to_string()).expect("failed to get key 2"));
}

#[test]
fn zero_buckets_is_refused() {
    let r = LinkedHashmap::<String, String>::new(0);
    assert_eq!(r.err(), Some(ConstructError::ZeroBuckets));
}

#[test]
fn fresh_maps_find_nothing() {
    for n in [1u32, 2, 5, 64] {
        let map = LinkedHashmap::<String, String>::new(n).unwrap();
        assert_eq!(None, map.get("key1".to_string()));
        assert_eq!(None, map.get(String::new()));
    }
}

#[test]
fn empty_map_lookup_of_anything() {
    let map = LinkedHashmap::<String, String>::new(5).unwrap();
    assert_eq!(None, map.get("anything".to_string()));
}

#[test]
fn put_reports_whether_it_inserted() {
    let mut map = LinkedHashmap::<String, String>::new(5).unwrap();
    assert!(map.put("k".to_string(), "v1".to_string()));
    assert!(!map.put("k".to_string(), "v2".to_string()));
}

#[test]
fn second_put_does_not_overwrite() {
    let mut map = LinkedHashmap::<String, String>::new(5).unwrap();
    map.put("k".to_string(), "v1".to_string());
    map.put("k".to_string(), "v2".to_string());
    assert_eq!(Some(&"v1".to_string()), map.get("k".to_string()));
}

#[test]
fn mutation_through_reference_shows_in_get() {
    let mut map = LinkedHashmap::<String, u64>::new(3).unwrap();
    map.put("count".to_string(), 10);
    *map.get_mut("count".to_string()).unwrap() += 5;
    assert_eq!(Some(&15), map.get("count".to_string()));
}

#[test]
fn get_mut_of_absent_key_is_none() {
    let mut map = LinkedHashmap::<String, String>::new(2).unwrap();
    map.put("key1".to_string(), "val1".to_string());
    assert!(map.get_mut("other".to_string()).is_none());
    assert_eq!(Some(&"val1".to_string()), map.get("key1".to_string()));
}

#[test]
fn remove_round_trip_then_absent() {
    let mut map = LinkedHashmap::<String, String>::new(5).unwrap();
    map.put("k".to_string(), "v".to_string());
    assert_eq!(Some("v".to_string()), map.remove("k".to_string()));
    assert_eq!(None, map.get("k".to_string()));
    assert_eq!(None, map.remove("k".to_string()));
}

#[test]
fn remove_of_absent_key_leaves_bucket_alone() {
    let mut map = LinkedHashmap::<String, String>::new(1).unwrap();
    map.put("key1".to_string(), "val1".to_string());
    map.put("key2".to_string(), "val2".to_string());
    assert_eq!(None, map.remove("key3".to_string()));
    assert_eq!(Some(&"val1".to_string()), map.get("key1".to_string()));
    assert_eq!(Some(&"val2".to_string()), map.get("key2".to_string()));
}

#[test]
fn many_keys_in_one_bucket() {
    let mut map = LinkedHashmap::<String, u64>::new(1).unwrap();
    for i in 0..20u64 {
        assert!(map.put(format!("key{}", i), i));
    }
    for i in (0..20u64).step_by(2) {
        assert_eq!(Some(i), map.remove(format!("key{}", i)));
    }
    for i in 0..20u64 {
        let expected = if i % 2 == 0 { None } else { Some(&i) };
        assert_eq!(expected, map.get(format!("key{}", i)));
    }
}

#[test]
fn hash_is_deterministic() {
    let a = "key1".to_string();
    let b = "key1".to_string();
    assert_eq!(a.to_hash(), a.to_hash());
    assert_eq!(a.to_hash(), b.to_hash());
}

#[test]
fn hash_depends_on_the_characters() {
    let codes: Vec<u32> = ["", "a", "key1", "key2", "val1"]
        .iter()
        .map(|s| s.to_string().to_hash())
        .collect();
    for i in 0..codes.len() {
        for j in (i + 1)..codes.len() {
            assert_ne!(codes[i], codes[j]);
        }
    }
}

#[test]
fn bin_key_is_hash_modulo_bucket_count() {
    let map = LinkedHashmap::<String, String>::new(7).unwrap();
    let k = "key1".to_string();
    assert_eq!(k.to_hash() % 7, map.bin_key(&k));
    let one = LinkedHashmap::<String, String>::new(1).unwrap();
    assert_eq!(0, one.bin_key(&k));
}
