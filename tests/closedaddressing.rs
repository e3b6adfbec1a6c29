use hashtable::closedaddressing::HashTable;

#[test]
fn closedaddressing_it_works() {
    // Setup
    let mut hash_table = HashTable::new();

    // Exercise: insert
    for i in 1..100 {
        let key = format!("key{}", i);
        let value = i;
        hash_table.upsert(key, value)
    }

    // Verify: get (found)
    for i in 1..100 {
        let key = format!("key{}", i);
        let expected_value = i;
        let actual = hash_table.get(key.as_str());
        assert!(actual.is_some());
        assert_eq!(expected_value, actual.unwrap());
    }

    // Exercise: update
    for i in 1..100 {
        let key = format!("key{}", i);
        let value = i * 2;
        hash_table.upsert(key, value)
    }

    // Verify: update
    for i in 1..100 {
        let key = format!("key{}", i);
        let expected_value = i * 2;
        let actual = hash_table.get(key.as_str());
        assert!(actual.is_some());
        assert_eq!(expected_value, actual.unwrap());
    }

    // Verify: get (not found)
    {
        let actual = hash_table.get("key100");
        assert!(actual.is_none());
    }

    // Exercise: delete and get (not found)
    for i in 1..50 {
        let key = format!("key{}", i);
        hash_table.delete(key.as_str());
        let actual = hash_table.get(key.as_str());
        assert!(actual.is_none());
    }

    // Exercise: insert and get (found)
    for expected_value in 1..50 {
        let key = format!("key{}", expected_value);
        hash_table.upsert(key.clone(), expected_value);
        let actual = hash_table.get(key.as_str());
        assert!(actual.is_some());
        assert_eq!(expected_value, actual.unwrap());
    }
}

#[test]
fn chained_fresh_table_finds_nothing() {
    let hash_table = HashTable::new();
    assert_eq!(hash_table.get(""), None);
    assert_eq!(hash_table.get("key1"), None);
}

#[test]
fn chained_distinct_keys_keep_their_values() {
    let mut hash_table = HashTable::new();
    for i in 0..200 {
        hash_table.upsert(format!("k{}", i), i * 3 - 7);
    }
    for i in 0..200 {
        assert_eq!(hash_table.get(format!("k{}", i).as_str()), Some(i * 3 - 7));
    }
}

#[test]
fn chained_upsert_overwrites() {
    let mut hash_table = HashTable::new();
    hash_table.upsert("a".to_string(), 1);
    hash_table.upsert("a".to_string(), 2);
    assert_eq!(hash_table.get("a"), Some(2));
    hash_table.upsert("a".to_string(), i32::MIN);
    assert_eq!(hash_table.get("a"), Some(i32::MIN));
}

#[test]
fn chained_delete_then_reinsert() {
    let mut hash_table = HashTable::new();
    hash_table.upsert("k".to_string(), 5);
    hash_table.delete("k");
    assert_eq!(hash_table.get("k"), None);
    hash_table.upsert("k".to_string(), 9);
    assert_eq!(hash_table.get("k"), Some(9));
}

#[test]
fn chained_delete_missing_key_changes_nothing() {
    let mut hash_table = HashTable::new();
    for i in 0..40 {
        hash_table.upsert(format!("x{}", i), i);
    }
    hash_table.delete("absent");
    hash_table.delete("absent");
    for i in 0..40 {
        assert_eq!(hash_table.get(format!("x{}", i).as_str()), Some(i));
    }
    assert_eq!(hash_table.get("absent"), None);
}

#[test]
fn chained_delete_keeps_rest_of_chain() {
    let mut hash_table = HashTable::new();
    for i in 0..64 {
        hash_table.upsert(format!("c{}", i), i);
    }
    for i in (0..64).step_by(2) {
        hash_table.delete(format!("c{}", i).as_str());
    }
    for i in 0..64 {
        let expected = if i % 2 == 0 { None } else { Some(i) };
        assert_eq!(hash_table.get(format!("c{}", i).as_str()), expected);
    }
}

#[test]
fn chained_empty_key_and_extreme_values() {
    let mut hash_table = HashTable::new();
    hash_table.upsert(String::new(), i32::MAX);
    hash_table.upsert("z".to_string(), i32::MIN);
    assert_eq!(hash_table.get(""), Some(i32::MAX));
    assert_eq!(hash_table.get("z"), Some(i32::MIN));
    hash_table.delete("");
    assert_eq!(hash_table.get(""), None);
    assert_eq!(hash_table.get("z"), Some(i32::MIN));
}
