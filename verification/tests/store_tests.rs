use kvstore::store::{KVStore, StoreError};

fn sample_store() -> KVStore {
    let mut store = KVStore::new();
    store.set("b", "2", None).unwrap();
    store.set("a", "1", None).unwrap();
    store.set("c", "3", None).unwrap();
    store
}

#[test]
fn set_and_get_roundtrip() {
    let mut store = KVStore::new();
    store.set("name", "kvstore", None).unwrap();
    assert_eq!(store.get("name"), Ok(Some("kvstore")));
    assert_eq!(store.len(), 1);
}

#[test]
fn set_overwrites_existing_key() {
    let mut store = KVStore::new();
    store.set("k", "v1", None).unwrap();
    store.set("k", "v2", None).unwrap();
    assert_eq!(store.get("k"), Ok(Some("v2")));
    assert_eq!(store.len(), 1);
}

#[test]
fn get_missing_key_returns_none() {
    let store = KVStore::new();
    assert_eq!(store.get("nope"), Ok(None));
}

#[test]
fn delete_returns_whether_removed() {
    let mut store = sample_store();
    assert!(store.delete("a").unwrap());
    assert!(!store.delete("a").unwrap());
    assert!(!store.delete("missing").unwrap());
    assert_eq!(store.len(), 2);
}

#[test]
fn list_returns_sorted_keys() {
    let store = sample_store();
    assert_eq!(
        store.list(),
        vec!["a".to_string(), "b".to_string(), "c".to_string()]
    );
}

#[test]
fn mod_list_empty_store() {
    let store = KVStore::new();
    assert!(store.list().is_empty());
}

#[test]
fn len_and_is_empty() {
    let mut store = KVStore::new();
    assert!(store.is_empty());
    assert_eq!(store.len(), 0);
    store.set("k", "v", None).unwrap();
    assert!(!store.is_empty());
    assert_eq!(store.len(), 1);
}

#[test]
fn reject_empty_key() {
    let mut store = KVStore::new();
    assert!(matches!(store.set("", "v", None), Err(StoreError::InvalidKey(_))));
    assert!(matches!(store.get(""), Err(StoreError::InvalidKey(_))));
    assert!(matches!(store.delete(""), Err(StoreError::InvalidKey(_))));
}

#[test]
fn reject_key_with_space() {
    let mut store = KVStore::new();
    assert!(matches!(store.set("a b", "v", None), Err(StoreError::InvalidKey(_))));
    assert!(matches!(store.get("a b"), Err(StoreError::InvalidKey(_))));
}

#[test]
fn reject_key_with_newline() {
    let mut store = KVStore::new();
    assert!(matches!(store.set("a\nb", "v", None), Err(StoreError::InvalidKey(_))));
}

#[test]
fn value_can_contain_spaces() {
    let mut store = KVStore::new();
    store.set("k", "hello world  !", None).unwrap();
    assert_eq!(store.get("k"), Ok(Some("hello world  !")));
}

#[test]
fn expired_key_get_returns_none() {
    let mut store = KVStore::new();
    store.set("k", "v", Some(0)).unwrap();
    assert_eq!(store.get("k"), Ok(None));
}

#[test]
fn unexpired_key_get_returns_value() {
    let mut store = KVStore::new();
    store.set("k", "v", Some(3600)).unwrap();
    assert_eq!(store.get("k"), Ok(Some("v")));
}

#[test]
fn no_ttl_is_permanent() {
    let mut store = KVStore::new();
    store.set("k", "v", None).unwrap();
    assert_eq!(store.get("k"), Ok(Some("v")));
}

#[test]
fn overwrite_with_new_ttl_takes_effect() {
    let mut store = KVStore::new();
    store.set("k", "v1", Some(3600)).unwrap();
    store.set("k", "v2", Some(0)).unwrap();
    assert_eq!(store.get("k"), Ok(None));
}

#[test]
fn overwrite_without_ttl_becomes_permanent() {
    let mut store = KVStore::new();
    store.set("k", "v1", Some(0)).unwrap();
    store.set("k", "v2", None).unwrap();
    assert_eq!(store.get("k"), Ok(Some("v2")));
}

#[test]
fn list_excludes_expired_keys() {
    let mut store = KVStore::new();
    store.set("a", "1", None).unwrap();
    store.set("b", "2", Some(0)).unwrap();
    store.set("c", "3", Some(3600)).unwrap();
    assert_eq!(store.list(), vec!["a".to_string(), "c".to_string()]);
}

#[test]
fn len_excludes_expired_keys() {
    let mut store = KVStore::new();
    store.set("a", "1", None).unwrap();
    store.set("b", "2", Some(0)).unwrap();
    assert_eq!(store.len(), 1);
    assert!(!store.is_empty());
}

#[test]
fn delete_expired_key_returns_false_and_removes() {
    let mut store = KVStore::new();
    store.set("k", "v", Some(0)).unwrap();
    assert!(!store.delete("k").unwrap());
    assert!(!store.contains_entry("k"));
}

#[test]
fn set_sweeps_expired_entries() {
    let mut store = KVStore::new();
    store.set("a", "1", Some(0)).unwrap();
    store.set("b", "2", Some(3600)).unwrap();
    assert_eq!(store.entry_count(), 1);
    assert!(store.contains_entry("b"));
    assert!(!store.contains_entry("a"));
}

// --- integration view of the store ---

#[test]
fn e2e_full_command_flow() {
    let mut store = KVStore::new();

    assert!(store.is_empty());
    assert_eq!(store.len(), 0);

    store.set("name", "Alice", None).unwrap();
    assert_eq!(store.get("name"), Ok(Some("Alice")));
    assert_eq!(store.len(), 1);

    store.set("age", "20", None).unwrap();
    assert_eq!(store.get("age"), Ok(Some("20")));
    assert_eq!(store.len(), 2);

    store.set("name", "Bob", None).unwrap();
    assert_eq!(store.get("name"), Ok(Some("Bob")));
    assert_eq!(store.len(), 2);

    let removed = store.delete("age").unwrap();
    assert!(removed);
    assert_eq!(store.get("age"), Ok(None));
    assert_eq!(store.len(), 1);

    let removed = store.delete("age").unwrap();
    assert!(!removed);

    let keys = store.list();
    assert_eq!(keys, vec!["name".to_string()]);

    assert_eq!(store.len(), 1);
}

#[test]
fn e2e_many_keys_insert_and_list() {
    let mut store = KVStore::new();
    let n = 100;

    for i in 0..n {
        store
            .set(&format!("key{}", i), &format!("value{}", i), None)
            .unwrap();
    }
    assert_eq!(store.len(), n);

    for i in 0..n {
        let key = format!("key{}", i);
        let expected = format!("value{}", i);
        assert_eq!(store.get(&key), Ok(Some(expected.as_str())));
    }

    let keys = store.list();
    assert_eq!(keys.len(), n);
    assert_eq!(keys.first().unwrap(), "key0");
    assert_eq!(keys.last().unwrap(), "key99");
}

#[test]
fn e2e_delete_all_back_to_empty() {
    let mut store = KVStore::new();
    store.set("a", "1", None).unwrap();
    store.set("b", "2", None).unwrap();
    store.set("c", "3", None).unwrap();
    assert_eq!(store.len(), 3);

    store.delete("a").unwrap();
    store.delete("b").unwrap();
    store.delete("c").unwrap();

    assert!(store.is_empty());
    assert_eq!(store.len(), 0);
    assert!(store.list().is_empty());
}

#[test]
fn value_empty_string() {
    let mut store = KVStore::new();
    store.set("k", "", None).unwrap();
    assert_eq!(store.get("k"), Ok(Some("")));
}

#[test]
fn value_with_spaces() {
    let mut store = KVStore::new();
    store.set("greeting", "hello world", None).unwrap();
    assert_eq!(store.get("greeting"), Ok(Some("hello world")));
}

#[test]
fn value_with_special_chars() {
    let mut store = KVStore::new();
    let val = "!@#$%^&*()_+-=[]{}|;:'\",.<>?/`~";
    store.set("special", val, None).unwrap();
    assert_eq!(store.get("special"), Ok(Some(val)));
}

#[test]
fn value_very_long() {
    let mut store = KVStore::new();
    let long_val = "a".repeat(10000);
    store.set("long", &long_val, None).unwrap();
    let result = store.get("long").unwrap().unwrap();
    assert_eq!(result.len(), 10000);
    assert_eq!(result, long_val);
}

#[test]
fn value_with_chinese() {
    let mut store = KVStore::new();
    store.set("msg", "你好，世界", None).unwrap();
    assert_eq!(store.get("msg"), Ok(Some("你好，世界")));
}

#[test]
fn invalid_key_empty() {
    let mut store = KVStore::new();

    let set_err = store.set("", "v", None).unwrap_err();
    assert!(matches!(set_err, StoreError::InvalidKey(_)));

    let get_err = store.get("").unwrap_err();
    assert!(matches!(get_err, StoreError::InvalidKey(_)));

    let del_err = store.delete("").unwrap_err();
    assert!(matches!(del_err, StoreError::InvalidKey(_)));
}

#[test]
fn invalid_key_with_space() {
    let mut store = KVStore::new();
    assert!(store.set("hello world", "v", None).is_err());
    assert!(store.get("hello world").is_err());
    assert!(store.delete("hello world").is_err());
}

#[test]
fn invalid_key_with_tab() {
    let mut store = KVStore::new();
    assert!(store.set("a\tb", "v", None).is_err());
}

#[test]
fn invalid_key_with_newline() {
    let mut store = KVStore::new();
    assert!(store.set("a\nb", "v", None).is_err());
}

#[test]
fn invalid_key_with_carriage_return() {
    let mut store = KVStore::new();
    assert!(store.set("a\rb", "v", None).is_err());
}

#[test]
fn invalid_key_does_not_pollute_store() {
    let mut store = KVStore::new();
    let _ = store.set("", "v", None);
    let _ = store.set("a b", "v", None);
    let _ = store.set("a\nb", "v", None);

    assert!(store.is_empty());
    assert_eq!(store.len(), 0);
}

#[test]
fn get_nonexistent_returns_none() {
    let store = KVStore::new();
    assert_eq!(store.get("nothing"), Ok(None));
}

#[test]
fn integration_list_empty_store() {
    let store = KVStore::new();
    assert!(store.list().is_empty());
    assert_eq!(store.list().len(), 0);
}

#[test]
fn list_sorted_lexicographic() {
    let mut store = KVStore::new();
    store.set("z", "1", None).unwrap();
    store.set("apple", "2", None).unwrap();
    store.set("banana", "3", None).unwrap();
    store.set("Zoo", "4", None).unwrap();

    let keys = store.list();
    assert_eq!(
        keys,
        vec![
            "Zoo".to_string(),
            "apple".to_string(),
            "banana".to_string(),
            "z".to_string(),
        ]
    );
}

#[test]
fn delete_nonexistent_returns_false() {
    let mut store = KVStore::new();
    assert_eq!(store.delete("nope"), Ok(false));
}

#[test]
fn delete_twice_same_key() {
    let mut store = KVStore::new();
    store.set("k", "v", None).unwrap();

    assert_eq!(store.delete("k"), Ok(true));
    assert_eq!(store.delete("k"), Ok(false));
    assert_eq!(store.len(), 0);
}

// --- exact messages, time-given operations and laws on concrete values ---

#[test]
fn store_error_messages() {
    let mut store = KVStore::new();
    assert_eq!(store.set("", "v", None), Err(StoreError::InvalidKey("键不能为空".to_string())));
    assert_eq!(
        store.set("a\tb", "v", None),
        Err(StoreError::InvalidKey("键不能包含空白字符".to_string()))
    );
    assert_eq!(
        store.set("a\rb", "v", None),
        Err(StoreError::InvalidKey("键不能包含换行".to_string()))
    );
    assert_eq!(
        StoreError::InvalidKey("键不能为空".to_string()).message(),
        "非法键: 键不能为空"
    );
    assert_eq!(StoreError::KeyNotFound.message(), "键不存在");
}

#[test]
fn ttl_expires_exactly_after_its_seconds() {
    let mut store = KVStore::new();
    store.set_at("k", "v", Some(2), 1_000).unwrap();
    assert_eq!(store.get_at("k", 1_000), Ok(Some("v")));
    assert_eq!(store.get_at("k", 2_999), Ok(Some("v")));
    assert_eq!(store.get_at("k", 3_000), Ok(None));
    assert_eq!(store.get_at("k", 9_000), Ok(None));
    assert_eq!(store.len_at(2_999), 1);
    assert_eq!(store.len_at(3_000), 0);
    assert!(store.is_empty_at(3_000));
}

#[test]
fn huge_ttl_saturates_instead_of_overflowing() {
    let mut store = KVStore::new();
    store.set_at("k", "v", Some(u64::MAX), 5).unwrap();
    assert_eq!(store.get_at("k", u64::MAX - 1), Ok(Some("v")));
    assert_eq!(store.get_at("k", u64::MAX), Ok(None));
}

#[test]
fn set_keeps_other_keys() {
    let mut store = KVStore::new();
    store.set_at("x", "1", None, 0).unwrap();
    store.set_at("y", "2", Some(10), 0).unwrap();
    store.set_at("z", "3", None, 100).unwrap();
    assert_eq!(store.get_at("x", 100), Ok(Some("1")));
    assert_eq!(store.get_at("y", 100), Ok(Some("2")));
    assert_eq!(store.get_at("y", 10_000), Ok(None));
}

#[test]
fn list_and_len_agree() {
    let mut store = KVStore::new();
    for (k, ttl) in [("d", None), ("b", Some(1)), ("a", None), ("c", Some(5))] {
        store.set_at(k, "v", ttl, 0).unwrap();
    }
    assert_eq!(store.list_at(0), vec!["a", "b", "c", "d"]);
    assert_eq!(store.len_at(0), 4);
    assert_eq!(store.list_at(2_000), vec!["a", "c", "d"]);
    assert_eq!(store.len_at(2_000), 3);
    assert_eq!(store.entry_count(), 4);
}

#[test]
fn expired_value_stays_expired() {
    let mut store = KVStore::new();
    store.set_at("k", "v", Some(1), 0).unwrap();
    assert_eq!(store.get_at("k", 1_000), Ok(None));
    assert_eq!(store.get_at("k", 50_000), Ok(None));
    assert_eq!(store.delete_at("k", 1_000), Ok(false));
    assert!(!store.contains_entry("k"));
}

#[test]
fn get_after_delete_finds_nothing() {
    let mut store = KVStore::new();
    store.set_at("k", "v", None, 0).unwrap();
    assert_eq!(store.delete_at("k", 10), Ok(true));
    assert_eq!(store.get_at("k", 10), Ok(None));
    assert_eq!(store.get_at("k", 0), Ok(None));
}

#[test]
fn store_time_never_runs_backwards() {
    let mut store = KVStore::new();
    store.set_at("k", "v", Some(1), 5_000).unwrap();
    assert!(store.now() >= 5_000);
    assert_eq!(store.get("k"), Ok(Some("v")));
    store.set("k", "v", Some(0)).unwrap();
    assert_eq!(store.get("k"), Ok(None));
    store.note_time(3);
    assert!(store.now() >= 5_000);
}
