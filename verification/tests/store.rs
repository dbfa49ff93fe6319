use geng_db::db::InMemoryDB;
use geng_db::hashing::hash_value;
use geng_db::value::Value;

fn s_names(keys: &[&str]) -> Vec<String> {
    keys.iter().map(|k| k.to_string()).collect()
}

fn person(name: &str, age: u64, tags: &[&str]) -> Value {
    let mut user = Value::object();
    user.set_member("name", Value::string(name));
    user.set_member("age", Value::from_u64(age));
    user.set_member("tags", Value::array(tags.iter().map(|t| Value::string(t)).collect()));
    let mut record = Value::object();
    record.set_member("user", user);
    record
}

#[test]
fn test_basic_operations() {
    let mut db = InMemoryDB::new();

    assert_eq!(db.len(), 0, "New database should be empty");
    assert!(db.is_empty(), "New database should report as empty");
    assert_eq!(db.keys().len(), 0, "New database should have no keys");

    db.insert("name", Value::string("John Doe"));
    db.insert("age", Value::from_u64(30));
    db.insert("active", Value::Bool(true));

    assert_eq!(db.len(), 3, "Database should have 3 entries");
    assert!(!db.is_empty(), "Database should not be empty");

    assert_eq!(db.get("name"), Some(&Value::string("John Doe")), "Should retrieve correct name");
    assert_eq!(db.get("age"), Some(&Value::from_u64(30)), "Should retrieve correct age");
    assert_eq!(db.get("active"), Some(&Value::Bool(true)), "Should retrieve correct active status");
    assert_eq!(db.get("nonexistent"), None, "Should return None for nonexistent key");

    assert!(db.contains_key("name"), "Should confirm 'name' exists");
    assert!(db.contains_key("age"), "Should confirm 'age' exists");
    assert!(!db.contains_key("nonexistent"), "Should confirm 'nonexistent' doesn't exist");

    assert!(db.update("age", Value::from_u64(31)).0, "Should update existing key");
    assert_eq!(db.get("age"), Some(&Value::from_u64(31)), "Should retrieve updated age");
    assert!(
        !db.update("nonexistent", Value::string("value")).0,
        "Should return false for nonexistent key"
    );

    let keys = db.keys();
    assert_eq!(keys.len(), 3, "Should have 3 keys");
    assert!(keys.contains(&"name".to_string()), "Keys should contain 'name'");
    assert!(keys.contains(&"age".to_string()), "Keys should contain 'age'");
    assert!(keys.contains(&"active".to_string()), "Keys should contain 'active'");

    db.delete("active");
    assert_eq!(db.len(), 2, "Database should have 2 entries after delete");
    assert!(!db.contains_key("active"), "Deleted key should not exist");
    assert_eq!(db.get("active"), None, "Deleted key should return None");

    db.clear();
    assert_eq!(db.len(), 0, "Database should be empty after clear");
    assert!(db.is_empty(), "Database should report as empty after clear");
    assert_eq!(db.keys().len(), 0, "Database should have no keys after clear");
}

#[test]
fn a_new_store_lives_in_memory_with_its_settings() {
    let db = InMemoryDB::new();
    assert_eq!(db.persisted.data_file, None);
    assert_eq!(db.persisted.index_dir, "Indefx");
    assert_eq!(db.persisted.hash_dir, "hashes");
    assert!(db.auto_save);
    assert!(!db.backup_enabled);
    assert!(!db.save_due());
    assert!(db.indexes.list_indexes().is_empty());
}

#[test]
fn no_save_is_due_without_a_data_file() {
    let mut db = InMemoryDB::new();
    assert!(!db.insert("k", Value::Null));
    assert_eq!(db.update("k", Value::Bool(true)), (true, false));
    assert_eq!(db.update("other", Value::Bool(true)), (false, false));
    assert!(!db.delete("k"));
    assert!(!db.clear());
}

#[test]
fn a_save_is_due_after_every_change_of_a_store_with_a_data_file() {
    let mut db = InMemoryDB::with_data_file("data/db.json");
    assert!(db.save_due());
    assert!(db.insert("k", Value::Null));
    assert_eq!(db.update("k", Value::Bool(true)), (true, true));
    assert_eq!(db.update("other", Value::Bool(true)), (false, false));
    assert!(db.delete("k"));
    assert!(db.delete("k"));
    assert!(db.clear());
    db.set_auto_save(false);
    assert!(!db.save_due());
    assert!(!db.insert("k", Value::Null));
    assert_eq!(db.update("k", Value::Bool(true)), (true, false));
    assert!(!db.delete("k"));
    assert!(!db.clear());
    db.set_auto_save(true);
    assert!(db.insert("k", Value::Null));
}

#[test]
fn keys_come_sorted_and_once() {
    let mut db = InMemoryDB::new();
    for key in ["pear", "apple", "fig", "apple", "", "zebra", "Apple"] {
        db.insert(key, Value::Null);
    }
    assert_eq!(db.keys(), s_names(&["", "Apple", "apple", "fig", "pear", "zebra"]));
    assert_eq!(db.len(), 6);
}

#[test]
fn insert_overwrites_and_delete_of_a_missing_key_is_quiet() {
    let mut db = InMemoryDB::new();
    db.insert("", Value::string("empty_key"));
    assert_eq!(db.get(""), Some(&Value::string("empty_key")));
    db.insert("overwrite", Value::string("original"));
    db.insert("overwrite", Value::string("updated"));
    assert_eq!(db.get("overwrite"), Some(&Value::string("updated")));
    assert_eq!(db.len(), 2);
    db.delete("non_existent");
    assert_eq!(db.len(), 2);
    db.delete("overwrite");
    assert_eq!(db.update("overwrite", Value::string("after_delete")), (false, false));
    assert_eq!(db.get("overwrite"), None);
    let long_key = "a".repeat(1000);
    db.insert(&long_key, Value::string("long_key_value"));
    assert_eq!(db.get(&long_key), Some(&Value::string("long_key_value")));
}

#[test]
fn an_index_follows_every_change() {
    let mut db = InMemoryDB::new();
    db.create_index("by_value");
    assert!(db.index_exists("by_value"));
    let red = Value::string("red");
    let blue = Value::string("blue");
    db.insert("apple", Value::string("red"));
    db.insert("sky", Value::string("blue"));
    db.insert("rose", Value::string("red"));
    assert_eq!(db.find_by_value("by_value", &red), s_names(&["apple", "rose"]));
    assert_eq!(db.find_by_value("by_value", &blue), s_names(&["sky"]));
    // Overwriting moves the key from the old bucket to the new one.
    db.insert("apple", Value::string("blue"));
    assert_eq!(db.find_by_value("by_value", &red), s_names(&["rose"]));
    assert_eq!(db.find_by_value("by_value", &blue), s_names(&["sky", "apple"]));
    // Writing the same value again leaves the key there once.
    db.insert("rose", Value::string("red"));
    assert_eq!(db.find_by_value("by_value", &red), s_names(&["rose"]));
    assert_eq!(db.update("rose", Value::string("blue")), (true, false));
    assert_eq!(db.find_by_value("by_value", &red), s_names(&[]));
    assert_eq!(db.find_by_hash("by_value", hash_value(&blue)), s_names(&["sky", "apple", "rose"]));
    db.delete("sky");
    assert_eq!(db.find_by_value("by_value", &blue), s_names(&["apple", "rose"]));
    assert_eq!(db.indexes.get_index_stats("by_value"), Some((1, 2)));
    db.clear();
    assert_eq!(db.find_by_value("by_value", &blue), s_names(&[]));
    assert_eq!(db.indexes.get_index_stats("by_value"), Some((0, 0)));
    assert!(db.index_exists("by_value"));
}

#[test]
fn find_by_value_returns_the_keys_whose_value_has_the_hash() {
    let mut db = InMemoryDB::new();
    db.create_index("i");
    let values = [
        Value::from_u64(1),
        Value::from_u64(2),
        Value::from_u64(1),
        Value::string("1"),
        Value::from_float_bits(1.0f64.to_bits()),
        Value::from_u64(1),
        Value::Null,
    ];
    for (n, value) in values.iter().enumerate() {
        db.insert(&format!("k{}", n), value.deep_clone());
    }
    db.delete("k2");
    db.insert("k6", Value::from_u64(2));
    for wanted in values.iter() {
        let mut found = db.find_by_value("i", wanted);
        found.sort();
        let mut expected: Vec<String> = db
            .keys()
            .into_iter()
            .filter(|k| hash_value(db.get(k).unwrap()) == hash_value(wanted))
            .collect();
        expected.sort();
        assert_eq!(found, expected);
    }
    assert_eq!(db.find_by_value("i", &Value::from_u64(1)), s_names(&["k0", "k5"]));
    assert_eq!(db.find_by_value("i", &Value::from_u64(2)), s_names(&["k1", "k6"]));
    assert_eq!(db.find_by_value("i", &Value::Null), s_names(&[]));
}

#[test]
fn an_index_created_late_lacks_the_earlier_records_until_it_is_rebuilt() {
    let mut db = InMemoryDB::new();
    db.insert("a", Value::from_u64(1));
    db.create_index("late");
    assert_eq!(db.find_by_value("late", &Value::from_u64(1)), s_names(&[]));
    db.insert("b", Value::from_u64(1));
    assert_eq!(db.find_by_value("late", &Value::from_u64(1)), s_names(&["b"]));
    // A change of the earlier record files it.
    db.insert("a", Value::from_u64(1));
    assert_eq!(db.find_by_value("late", &Value::from_u64(1)), s_names(&["b", "a"]));
    db.insert("c", Value::from_u64(1));
    db.create_index("later");
    assert!(db.rebuild_index("later"));
    assert!(!db.rebuild_index("none"));
    assert_eq!(db.find_by_value("later", &Value::from_u64(1)), s_names(&["a", "b", "c"]));
    // Deleting a record that the index never had is quiet.
    db.create_index("empty");
    db.delete("a");
    assert_eq!(db.find_by_value("empty", &Value::from_u64(1)), s_names(&[]));
    assert_eq!(db.find_by_value("later", &Value::from_u64(1)), s_names(&["b", "c"]));
}

#[test]
fn dropping_an_index_leaves_the_records() {
    let mut db = InMemoryDB::new();
    db.create_index("i");
    db.insert("a", Value::Null);
    assert!(db.drop_index("i"));
    assert!(!db.drop_index("i"));
    assert!(!db.index_exists("i"));
    assert_eq!(db.find_by_value("i", &Value::Null), s_names(&[]));
    assert_eq!(db.get("a"), Some(&Value::Null));
}

#[test]
fn find_by_field_looks_at_every_record_and_not_at_the_index() {
    let mut db = InMemoryDB::new();
    db.insert("u1", person("Ann", 30, &["x", "y"]));
    db.insert("u2", person("Bob", 30, &["y"]));
    db.insert("u3", person("Ann", 41, &[]));
    db.insert("n", Value::from_u64(30));
    let ann = Value::string("Ann");
    let thirty = Value::from_u64(30);
    // The index does not exist: the search goes over the records all the same.
    assert_eq!(db.find_by_field("no_such_index", "user.name", &ann), s_names(&["u1", "u3"]));
    db.create_index("by_name");
    assert_eq!(db.find_by_field("by_name", "user.name", &ann), s_names(&["u1", "u3"]));
    assert_eq!(db.find_by_field("by_name", "user.age", &thirty), s_names(&["u1", "u2"]));
    assert_eq!(db.find_by_field("by_name", "user.tags.0", &Value::string("y")), s_names(&["u2"]));
    assert_eq!(db.find_by_field("by_name", "user.tags.1", &Value::string("y")), s_names(&["u1"]));
    assert_eq!(db.find_by_field("by_name", "user.missing", &ann), s_names(&[]));
    assert_eq!(db.find_by_field("by_name", "user.age", &Value::from_float_bits(30.0f64.to_bits())), s_names(&[]));
    assert_eq!(
        db.find_by_field("by_name", "user.tags", &Value::array(vec![Value::string("y")])),
        s_names(&["u2"])
    );
}

#[test]
fn complex_values_are_kept_as_they_are() {
    let mut nested = Value::object();
    nested.set_member(
        "array",
        Value::array(vec![Value::from_u64(1), Value::from_u64(2), Value::from_u64(3)]),
    );
    let mut object = Value::object();
    object.set_member("key", Value::string("value"));
    nested.set_member("object", object);
    let mut complex = Value::object();
    complex.set_member("nested", nested);
    complex.set_member("null_value", Value::Null);
    complex.set_member("boolean", Value::Bool(true));
    complex.set_member("number", Value::from_float_bits(3.14159f64.to_bits()));
    let mut db = InMemoryDB::new();
    db.insert("complex", complex.deep_clone());
    assert_eq!(db.get("complex"), Some(&complex));
}
