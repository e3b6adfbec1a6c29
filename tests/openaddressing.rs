use hashtable::openaddressing::{next_candidate, HashTable};

#[test]
fn openaddressing_it_works() {
    // Setup
    let mut hash_table = HashTable::new();

    // Exercise: insert
    for i in 1..100 {
        let key = format!("key{}", i);
        let value = i;
        hash_table.upsert(key, value)
    }

    // Verify: get (found)
    for i in 1..100 {
        let key = format!("key{}", i);
        let expected_value = i;
        let actual = hash_table.get(key.as_str());
        assert!(actual.is_some());
        assert_eq!(expected_value, actual.unwrap());
    }

    // Exercise: update
    for i in 1..100 {
        let key = format!("key{}", i);
        let value = i * 2;
        hash_table.upsert(key, value)
    }

    // Verify: update
    for i in 1..100 {
        let key = format!("key{}", i);
        let expected_value = i * 2;
        let actual = hash_table.get(key.as_str());
        assert!(actual.is_some());
        assert_eq!(expected_value, actual.unwrap());
    }

    // Verify: get (not found)
    {
        let actual = hash_table.get("key100");
        assert!(actual.is_none());
    }

    // Exercise: delete and get (not found)
    for i in 1..50 {
        let key = format!("key{}", i);
        hash_table.delete(key.as_str());
        let actual = hash_table.get(key.as_str());
        assert!(actual.is_none());
    }

    // Exercise: insert and get (found)
    for expected_value in 1..50 {
        let key = format!("key{}", expected_value);
        hash_table.upsert(key.clone(), expected_value);
        let actual = hash_table.get(key.as_str());
        assert!(actual.is_some());
        assert_eq!(expected_value, actual.unwrap());
    }
}

#[test]
fn probing_fresh_table_has_initial_length() {
    let hash_table = HashTable::new();
    assert_eq!(hash_table.len(), 16);
    assert_eq!(hash_table.get("key1"), None);
}

#[test]
fn probing_saturation_grows_and_keeps_entries() {
    let mut hash_table = HashTable::new();
    for i in 1..100 {
        hash_table.upsert(format!("key{}", i), i);
    }
    assert!(hash_table.len() > 16);
    for i in 1..100 {
        assert_eq!(hash_table.get(format!("key{}", i).as_str()), Some(i));
    }
    assert_eq!(hash_table.get("key100"), None);
}

#[test]
fn probing_growth_never_shrinks() {
    let mut hash_table = HashTable::new();
    let mut last = hash_table.len();
    for i in 0..300 {
        hash_table.upsert(format!("g{}", i), i);
        assert!(hash_table.len() >= last);
        last = hash_table.len();
        assert_eq!(hash_table.get(format!("g{}", i).as_str()), Some(i));
    }
    for i in 0..300 {
        assert_eq!(hash_table.get(format!("g{}", i).as_str()), Some(i));
    }
}

#[test]
fn probing_upsert_overwrites() {
    let mut hash_table = HashTable::new();
    hash_table.upsert("a".to_string(), 1);
    let len = hash_table.len();
    hash_table.upsert("a".to_string(), 2);
    assert_eq!(hash_table.get("a"), Some(2));
    assert_eq!(hash_table.len(), len);
    hash_table.upsert("a".to_string(), i32::MAX);
    assert_eq!(hash_table.get("a"), Some(i32::MAX));
}

#[test]
fn probing_delete_then_reinsert() {
    let mut hash_table = HashTable::new();
    hash_table.upsert("k".to_string(), 5);
    hash_table.delete("k");
    assert_eq!(hash_table.get("k"), None);
    hash_table.delete("k");
    assert_eq!(hash_table.get("k"), None);
    hash_table.upsert("k".to_string(), 9);
    assert_eq!(hash_table.get("k"), Some(9));
}

#[test]
fn probing_delete_missing_key_changes_nothing() {
    let mut hash_table = HashTable::new();
    for i in 0..12 {
        hash_table.upsert(format!("x{}", i), i);
    }
    let len = hash_table.len();
    hash_table.delete("absent");
    assert_eq!(hash_table.len(), len);
    for i in 0..12 {
        assert_eq!(hash_table.get(format!("x{}", i).as_str()), Some(i));
    }
    assert_eq!(hash_table.get("absent"), None);
}

#[test]
fn probing_empty_key_and_extreme_values() {
    let mut hash_table = HashTable::new();
    hash_table.upsert(String::new(), i32::MAX);
    hash_table.upsert("z".to_string(), i32::MIN);
    assert_eq!(hash_table.get(""), Some(i32::MAX));
    assert_eq!(hash_table.get("z"), Some(i32::MIN));
    hash_table.delete("");
    assert_eq!(hash_table.get(""), None);
    assert_eq!(hash_table.get("z"), Some(i32::MIN));
}

#[test]
fn probing_deleted_slots_are_reused() {
    let mut hash_table = HashTable::new();
    for round in 0..20 {
        for i in 0..10 {
            let key = format!("r{}", i);
            hash_table.upsert(key.clone(), round * 10 + i);
            assert_eq!(hash_table.get(key.as_str()), Some(round * 10 + i));
            hash_table.delete(key.as_str());
            assert_eq!(hash_table.get(key.as_str()), None);
        }
    }
}

#[test]
fn candidate_lengths_grow_by_one_to_len() {
    assert_eq!(next_candidate(16, 16, 0), Some(17));
    assert_eq!(next_candidate(16, 16, 5), Some(22));
    assert_eq!(next_candidate(16, 16, 15), Some(32));
    assert_eq!(next_candidate(16, 16, 16), Some(17));
    assert_eq!(next_candidate(16, 40, 37), Some(46));
    assert_eq!(next_candidate(16, usize::MAX - 6, 5), Some(usize::MAX));
    assert_eq!(next_candidate(16, usize::MAX - 3, 5), None);
    assert_eq!(next_candidate(1, usize::MAX, 0), None);
}
