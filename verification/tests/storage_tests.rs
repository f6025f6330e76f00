use p2p_sync::storage::Storage;

#[test]
fn test_storage_creation() {
    let storage = Storage::new();
    assert!(storage.list().is_empty());
}

#[test]
fn test_put_and_get() {
    let mut storage = Storage::new();
    storage.put("key1", "value1", 100);
    let value = storage.get("key1");
    assert_eq!(value, Some("value1".to_string()));
}

#[test]
fn test_put_empty_key() {
    let mut storage = Storage::new();
    storage.put("", "value", 100);
    let value = storage.get("");
    assert_eq!(value, Some("value".to_string()));
}

#[test]
fn test_put_empty_value() {
    let mut storage = Storage::new();
    storage.put("key", "", 100);
    let value = storage.get("key");
    assert_eq!(value, Some("".to_string()));
}

#[test]
fn test_put_unicode() {
    let mut storage = Storage::new();
    storage.put("키", "값", 100);
    storage.put("🔑", "🎁", 101);
    assert_eq!(storage.get("키"), Some("값".to_string()));
    assert_eq!(storage.get("🔑"), Some("🎁".to_string()));
}

#[test]
fn test_put_large_values() {
    let mut storage = Storage::new();
    let large_key = "k".repeat(1000);
    let large_value = "v".repeat(10000);
    storage.put(&large_key, &large_value, 100);
    assert_eq!(storage.get(&large_key), Some(large_value));
}

#[test]
fn test_put_overwrite() {
    let mut storage = Storage::new();
    storage.put("key", "value1", 100);
    storage.put("key", "value2", 101);
    assert_eq!(storage.get("key"), Some("value2".to_string()));
}

#[test]
fn test_put_with_timestamp_ordering() {
    let mut storage = Storage::new();
    let early_time = 1000;
    let late_time = 4600;
    storage.put_with_timestamp("key", "old_value", early_time);
    storage.put_with_timestamp("key", "new_value", late_time);
    assert_eq!(storage.get("key"), Some("new_value".to_string()));
}

#[test]
fn test_put_with_timestamp_ignore_old() {
    let mut storage = Storage::new();
    let late_time = 4600;
    let early_time = 1000;
    storage.put_with_timestamp("key", "new_value", late_time);
    storage.put_with_timestamp("key", "old_value", early_time);
    assert_eq!(storage.get("key"), Some("new_value".to_string()));
}

#[test]
fn test_get_nonexistent_key() {
    let storage = Storage::new();
    assert_eq!(storage.get("nonexistent"), None);
}

#[test]
fn test_delete_with_timestamp() {
    let mut storage = Storage::new();
    let put_time = 1000;
    let delete_time = 1001;
    storage.put_with_timestamp("key", "value", put_time);
    assert!(storage.get("key").is_some());
    storage.delete_with_timestamp("key", delete_time);
    assert!(storage.get("key").is_none());
}

#[test]
fn test_delete_with_timestamp_ignore_old() {
    let mut storage = Storage::new();
    let put_time = 4600;
    let early_delete_time = 1000;
    storage.put_with_timestamp("key", "value", put_time);
    storage.delete_with_timestamp("key", early_delete_time);
    assert_eq!(storage.get("key"), Some("value".to_string()));
}

#[test]
fn test_delete_nonexistent_key() {
    let mut storage = Storage::new();
    storage.delete_with_timestamp("nonexistent", 100);
}

#[test]
fn test_list_empty() {
    let storage = Storage::new();
    assert_eq!(storage.list().len(), 0);
}

#[test]
fn test_list_multiple_items() {
    let mut storage = Storage::new();
    storage.put("key1", "value1", 100);
    storage.put("key2", "value2", 101);
    storage.put("key3", "value3", 102);
    let items = storage.list();
    assert_eq!(items.len(), 3);
    let items_map: std::collections::HashMap<_, _> = items.into_iter().collect();
    assert_eq!(items_map.get("key1"), Some(&"value1".to_string()));
    assert_eq!(items_map.get("key2"), Some(&"value2".to_string()));
    assert_eq!(items_map.get("key3"), Some(&"value3".to_string()));
}

#[test]
fn test_list_after_delete() {
    let mut storage = Storage::new();
    storage.put("key1", "value1", 100);
    storage.put("key2", "value2", 100);
    storage.delete_with_timestamp("key1", 101);
    let items = storage.list();
    assert_eq!(items.len(), 1);
    assert_eq!(items[0], ("key2".to_string(), "value2".to_string()));
}

#[test]
fn test_sequential_operations() {
    let mut storage = Storage::new();
    for i in 0..10 {
        let key = format!("key{}", i);
        let value = format!("value{}", i);
        storage.put(&key, &value, 100 + i as i64);
        let retrieved = storage.get(&key);
        assert_eq!(retrieved, Some(value));
    }
    let items = storage.list();
    assert_eq!(items.len(), 10);
}

#[test]
fn test_special_characters_in_keys() {
    let mut storage = Storage::new();
    let special_keys = vec![
        "key with spaces",
        "key\twith\ttabs",
        "key\nwith\nnewlines",
        "key'with'quotes",
        "key\"with\"double\"quotes",
        "key\\with\\backslashes",
        "key/with/slashes",
        "key:with:colons",
        "key;with;semicolons",
        "key|with|pipes",
    ];
    for key in &special_keys {
        storage.put(key, "value", 100);
        let value = storage.get(key);
        assert_eq!(value, Some("value".to_string()));
    }
    let items = storage.list();
    assert_eq!(items.len(), special_keys.len());
}

#[test]
fn test_binary_data_as_strings() {
    let mut storage = Storage::new();
    let binary_like = "binary_data_00FF8040201008040201";
    storage.put("binary_key", binary_like, 100);
    assert_eq!(storage.get("binary_key"), Some(binary_like.to_string()));
}

#[test]
fn test_list_is_key_ordered() {
    let mut storage = Storage::new();
    storage.put("beta", "2", 100);
    storage.put("alpha", "1", 100);
    storage.put("gamma", "3", 100);
    let items = storage.list();
    assert_eq!(
        items,
        vec![
            ("alpha".to_string(), "1".to_string()),
            ("beta".to_string(), "2".to_string()),
            ("gamma".to_string(), "3".to_string()),
        ]
    );
}

#[test]
fn test_put_tie_overwrites() {
    let mut storage = Storage::new();
    storage.put_with_timestamp("x", "a", 100);
    storage.put_with_timestamp("x", "b", 100);
    assert_eq!(storage.get("x"), Some("b".to_string()));
}

#[test]
fn test_delete_tie_ignored() {
    let mut storage = Storage::new();
    storage.put_with_timestamp("x", "a", 100);
    storage.delete_with_timestamp("x", 100);
    assert_eq!(storage.get("x"), Some("a".to_string()));
}
