use geng_db::buckets::{file_key, find_bucket, keys_without, same_key, unfile_key, Bucket};
use geng_db::hash_index::{group_records, HashIndex};
use geng_db::hashing::hash_value;
use geng_db::index_load::{contains_name, sort_buckets};
use geng_db::index_text::{calculate_index_hash, write_index};
use geng_db::persist::{IndexContent, LoadError};
use geng_db::value::{Member, Value};

fn bucket(hash: u64, keys: &[&str]) -> Bucket {
    Bucket { hash, keys: keys.iter().map(|k| k.to_string()).collect() }
}

fn names(keys: &[&str]) -> Vec<String> {
    keys.iter().map(|k| k.to_string()).collect()
}

fn record(key: &str, value: Value) -> Member {
    Member { key: key.to_string(), value }
}

#[test]
fn keys_are_filed_in_the_order_in_which_they_come() {
    let mut buckets: Vec<Bucket> = Vec::new();
    file_key(&mut buckets, 17, "c".to_string());
    file_key(&mut buckets, 5, "a".to_string());
    file_key(&mut buckets, 5, "b".to_string());
    assert_eq!(buckets, vec![bucket(5, &["a", "b"]), bucket(17, &["c"])]);
    assert_eq!(find_bucket(&buckets, 5), Ok(0));
    assert_eq!(find_bucket(&buckets, 17), Ok(1));
    assert_eq!(find_bucket(&buckets, 1), Err(0));
    assert_eq!(find_bucket(&buckets, 6), Err(1));
    assert_eq!(find_bucket(&buckets, 18), Err(2));
}

#[test]
fn the_last_key_takes_its_bucket_with_it() {
    let mut buckets = vec![bucket(5, &["a", "b"]), bucket(17, &["c"])];
    unfile_key(&mut buckets, 5, "a");
    assert_eq!(buckets, vec![bucket(5, &["b"]), bucket(17, &["c"])]);
    unfile_key(&mut buckets, 5, "missing");
    assert_eq!(buckets, vec![bucket(5, &["b"]), bucket(17, &["c"])]);
    unfile_key(&mut buckets, 6, "b");
    assert_eq!(buckets, vec![bucket(5, &["b"]), bucket(17, &["c"])]);
    unfile_key(&mut buckets, 5, "b");
    assert_eq!(buckets, vec![bucket(17, &["c"])]);
    unfile_key(&mut buckets, 17, "c");
    assert_eq!(buckets, Vec::<Bucket>::new());
}

#[test]
fn a_name_is_looked_for_in_a_list() {
    assert!(contains_name(&names(&["a", "b"]), "b"));
    assert!(!contains_name(&names(&["a", "b"]), "c"));
    assert!(!contains_name(&names(&[]), ""));
}

#[test]
fn every_occurrence_of_a_key_is_taken_out() {
    assert_eq!(keys_without(&names(&["a", "b", "a", "c", "a"]), "a"), names(&["b", "c"]));
    assert_eq!(keys_without(&names(&["a", "b"]), "z"), names(&["a", "b"]));
    assert_eq!(keys_without(&names(&[]), "z"), names(&[]));
    assert!(same_key("k", "k"));
    assert!(!same_key("k", "K"));
}

#[test]
fn an_index_is_created_empty_and_replaced_empty() {
    let mut index = HashIndex::new();
    assert!(!index.index_exists("by_value"));
    assert_eq!(index.get_index_stats("by_value"), None);
    index.create_index("by_value");
    assert!(index.index_exists("by_value"));
    assert_eq!(index.get_index_stats("by_value"), Some((0, 0)));
    assert!(index.add_to_index("by_value", "k", &Value::Null));
    assert_eq!(index.get_index_stats("by_value"), Some((1, 1)));
    index.create_index("by_value");
    assert_eq!(index.get_index_stats("by_value"), Some((0, 0)));
    assert_eq!(index.list_indexes(), names(&["by_value"]));
}

#[test]
fn adding_and_removing_keys_of_values() {
    let mut index = HashIndex::new();
    index.create_index("i");
    let red = Value::string("red");
    let blue = Value::string("blue");
    assert!(index.add_to_index("i", "apple", &red));
    assert!(index.add_to_index("i", "sky", &blue));
    assert!(index.add_to_index("i", "rose", &red));
    assert!(!index.add_to_index("none", "rose", &red));
    assert_eq!(index.find_by_value("i", &red), names(&["apple", "rose"]));
    assert_eq!(index.find_by_value("i", &blue), names(&["sky"]));
    assert_eq!(index.find_by_value("i", &Value::string("green")), names(&[]));
    assert_eq!(index.find_by_value("none", &red), names(&[]));
    assert_eq!(index.find_by_hash("i", hash_value(&red)), names(&["apple", "rose"]));
    assert_eq!(index.find_by_hash("none", hash_value(&red)), names(&[]));
    assert_eq!(index.get_index_stats("i"), Some((2, 3)));
    let mut hashes = vec![hash_value(&red), hash_value(&blue)];
    hashes.sort();
    assert_eq!(index.get_all_hashes("i"), hashes);
    assert_eq!(index.get_all_hashes("none"), Vec::<u64>::new());
    assert!(index.remove_from_index("i", "apple", &red));
    assert_eq!(index.find_by_value("i", &red), names(&["rose"]));
    assert!(index.remove_from_index("i", "rose", &red));
    assert_eq!(index.find_by_value("i", &red), names(&[]));
    assert_eq!(index.get_all_hashes("i"), vec![hash_value(&blue)]);
    assert_eq!(index.get_index_stats("i"), Some((1, 1)));
    assert!(!index.remove_from_index("none", "sky", &blue));
    assert!(index.remove_from_index("i", "sky", &red));
    assert_eq!(index.find_by_value("i", &blue), names(&["sky"]));
}

#[test]
fn a_key_added_twice_stands_twice() {
    let mut index = HashIndex::new();
    index.create_index("i");
    index.add_to_index("i", "k", &Value::Null);
    index.add_to_index("i", "k", &Value::Null);
    assert_eq!(index.find_by_value("i", &Value::Null), names(&["k", "k"]));
    assert_eq!(index.get_index_stats("i"), Some((1, 2)));
    index.remove_from_index("i", "k", &Value::Null);
    assert_eq!(index.find_by_value("i", &Value::Null), names(&[]));
    assert_eq!(index.get_index_stats("i"), Some((0, 0)));
}

#[test]
fn rebuilding_files_every_record() {
    let storage = vec![
        record("a", Value::from_u64(1)),
        record("b", Value::from_u64(2)),
        record("c", Value::from_u64(1)),
    ];
    let mut index = HashIndex::new();
    index.create_index("i");
    index.add_to_index("i", "stale", &Value::Null);
    assert!(index.rebuild_index("i", &storage));
    assert!(!index.rebuild_index("none", &storage));
    assert_eq!(index.find_by_value("i", &Value::from_u64(1)), names(&["a", "c"]));
    assert_eq!(index.find_by_value("i", &Value::from_u64(2)), names(&["b"]));
    assert_eq!(index.find_by_value("i", &Value::Null), names(&[]));
    assert_eq!(index.get_index_stats("i"), Some((2, 3)));
    let grouped = group_records(&storage);
    assert_eq!(grouped.len(), 2);
    assert_eq!(grouped.iter().map(|b| b.keys.len()).sum::<usize>(), 3);
}

#[test]
fn clearing_and_dropping() {
    let mut index = HashIndex::new();
    index.create_index("one");
    index.create_index("two");
    index.add_to_index("one", "k", &Value::Null);
    index.add_to_index("two", "k", &Value::Null);
    assert!(index.clear_index("one"));
    assert!(!index.clear_index("none"));
    assert_eq!(index.get_index_stats("one"), Some((0, 0)));
    assert_eq!(index.get_index_stats("two"), Some((1, 1)));
    assert!(index.drop_index("one"));
    assert!(!index.drop_index("one"));
    assert!(!index.index_exists("one"));
    assert_eq!(index.list_indexes(), names(&["two"]));
    index.clear_all();
    assert_eq!(index.get_index_stats("two"), Some((0, 0)));
}

#[test]
fn refiling_moves_a_key_in_every_index() {
    let mut index = HashIndex::new();
    index.create_index("one");
    index.create_index("two");
    index.refile_key(None, Some(5), "k");
    assert_eq!(index.find_by_hash("one", 5), names(&["k"]));
    assert_eq!(index.find_by_hash("two", 5), names(&["k"]));
    index.refile_key(Some(5), Some(6), "k");
    assert_eq!(index.find_by_hash("one", 5), names(&[]));
    assert_eq!(index.find_by_hash("two", 6), names(&["k"]));
    index.refile_key(Some(6), None, "k");
    assert_eq!(index.get_index_stats("one"), Some((0, 0)));
    assert_eq!(index.get_index_stats("two"), Some((0, 0)));
}

#[test]
fn the_text_of_an_index_is_what_serde_json_writes() {
    let buckets = vec![bucket(5, &["a", "b"]), bucket(17, &["c"])];
    assert_eq!(write_index(&buckets, false), "{\"5\":[\"a\",\"b\"],\"17\":[\"c\"]}");
    assert_eq!(
        write_index(&buckets, true),
        "{\n  \"5\": [\n    \"a\",\n    \"b\"\n  ],\n  \"17\": [\n    \"c\"\n  ]\n}"
    );
    assert_eq!(write_index(&Vec::new(), false), "{}");
    assert_eq!(write_index(&Vec::new(), true), "{}");
    let mut map: std::collections::BTreeMap<u64, Vec<String>> = std::collections::BTreeMap::new();
    map.insert(5, names(&["a", "b"]));
    map.insert(17, names(&["c"]));
    map.insert(u64::MAX, names(&["quote\"d", "back\\slash", "new\nline", "é", "\u{1}"]));
    let buckets = vec![
        bucket(5, &["a", "b"]),
        bucket(17, &["c"]),
        bucket(u64::MAX, &["quote\"d", "back\\slash", "new\nline", "é", "\u{1}"]),
    ];
    assert_eq!(write_index(&buckets, false), serde_json::to_string(&map).unwrap());
    assert_eq!(write_index(&buckets, true), serde_json::to_string_pretty(&map).unwrap());
}

#[test]
fn keys_are_escaped_in_the_text_of_an_index() {
    let buckets = vec![bucket(1, &["say \"hi\""])];
    assert_eq!(write_index(&buckets, false), "{\"1\":[\"say \\\"hi\\\"\"]}");
}

// What stands for a character in a JSON string literal.
fn escaped(c: char) -> String {
    match c {
        '"' => "\\\"".to_string(),
        '\\' => "\\\\".to_string(),
        '\u{8}' => "\\b".to_string(),
        '\t' => "\\t".to_string(),
        '\n' => "\\n".to_string(),
        '\u{c}' => "\\f".to_string(),
        '\r' => "\\r".to_string(),
        c if (c as u32) < 0x20 => format!("\\u00{:x}{:x}", (c as u32) / 16, (c as u32) % 16),
        c => c.to_string(),
    }
}

#[test]
fn every_character_of_a_key_is_escaped_by_the_rule() {
    let mut samples: Vec<char> = (0u32..0x100).filter_map(char::from_u32).collect();
    samples.extend(['\u{7f}', '\u{2028}', '\u{ffff}', '日', '𝄞']);
    for c in samples {
        let key = c.to_string();
        let expected = format!("{{\"1\":[\"{}\"]}}", escaped(c));
        assert_eq!(write_index(&vec![bucket(1, &[key.as_str()])], false), expected);
    }
    let mixed = "a\"b\\c\nd\u{1}é";
    let expected: String = mixed.chars().map(escaped).collect();
    assert_eq!(
        write_index(&vec![bucket(1, &[mixed])], false),
        format!("{{\"1\":[\"{}\"]}}", expected)
    );
}

#[test]
fn the_digest_of_an_index_is_that_of_its_compact_text() {
    let buckets = vec![bucket(5, &["a", "b"]), bucket(17, &["c"])];
    assert_eq!(
        calculate_index_hash(&buckets),
        "1fd9f1f6671d8f94f2d98a489f67c52c7350586266af14b6b42ab54139e6d6f3"
    );
    assert_eq!(
        calculate_index_hash(&Vec::new()),
        "44136fa355b3678a1146ad16f7e8649e94fb4fc21fe77e8310c060f61caaff8a"
    );
}

#[test]
fn loaded_buckets_are_sorted_and_cleaned() {
    let loaded = sort_buckets(vec![
        bucket(17, &["c"]),
        bucket(5, &["old"]),
        bucket(9, &[]),
        bucket(5, &["a", "b"]),
    ]);
    assert_eq!(loaded, vec![bucket(5, &["a", "b"]), bucket(17, &["c"])]);
    assert_eq!(sort_buckets(vec![]), Vec::<Bucket>::new());
}

#[test]
fn an_index_is_taken_over_from_its_file() {
    let mut index = HashIndex::new();
    assert_eq!(index.load_index("gone", IndexContent::Missing), Ok(()));
    assert!(!index.index_exists("gone"));
    assert_eq!(index.load_index("bad", IndexContent::Invalid), Err(LoadError::Malformed));
    assert!(!index.index_exists("bad"));
    assert_eq!(index.load_index("blank", IndexContent::Blank), Ok(()));
    assert_eq!(index.get_index_stats("blank"), Some((0, 0)));
    let found = IndexContent::Buckets(vec![bucket(17, &["c"]), bucket(5, &["a", "b"])]);
    assert_eq!(index.load_index("full", found), Ok(()));
    assert_eq!(index.get_index_stats("full"), Some((2, 3)));
    assert_eq!(index.find_by_hash("full", 5), names(&["a", "b"]));
    assert_eq!(index.get_all_hashes("full"), vec![5, 17]);
    index.put_index("full", vec![bucket(1, &["z"])]);
    assert_eq!(index.get_all_hashes("full"), vec![1]);
}

#[test]
fn loading_all_indexes_stops_at_the_first_invalid_one() {
    let mut index = HashIndex::new();
    let found = vec![
        ("one.json".to_string(), IndexContent::Blank),
        ("notes.txt".to_string(), IndexContent::Invalid),
        ("two.json".to_string(), IndexContent::Buckets(vec![bucket(3, &["k"])])),
        ("bad.json".to_string(), IndexContent::Invalid),
        ("late.json".to_string(), IndexContent::Blank),
    ];
    assert_eq!(index.load_all_indexes(found), Err(LoadError::Malformed));
    assert_eq!(index.list_indexes(), names(&["one", "two"]));
    let mut other = HashIndex::new();
    let found = vec![
        ("one.json".to_string(), IndexContent::Blank),
        ("gone.json".to_string(), IndexContent::Missing),
        ("one.tmp".to_string(), IndexContent::Invalid),
    ];
    assert_eq!(other.load_all_indexes(found), Ok(()));
    assert_eq!(other.list_indexes(), names(&["one"]));
}

#[test]
fn listing_takes_over_the_indexes_that_are_found_and_not_yet_there() {
    let mut index = HashIndex::new();
    index.create_index("here");
    index.add_to_index("here", "k", &Value::Null);
    let found = vec![
        ("here.json".to_string(), IndexContent::Blank),
        ("new.json".to_string(), IndexContent::Buckets(vec![bucket(3, &["k"])])),
        ("bad.json".to_string(), IndexContent::Invalid),
        ("notes.txt".to_string(), IndexContent::Blank),
        ("new.json.json".to_string(), IndexContent::Blank),
        ("empty.json".to_string(), IndexContent::Blank),
        ("gone.json".to_string(), IndexContent::Missing),
    ];
    assert_eq!(index.list_indexes_with(found), names(&["here", "new", "empty", "gone"]));
    // The index that was there is as it was.
    assert_eq!(index.get_index_stats("here"), Some((1, 1)));
    assert_eq!(index.find_by_hash("new", 3), names(&["k"]));
    assert_eq!(index.get_index_stats("empty"), Some((0, 0)));
    assert!(!index.index_exists("bad"));
    assert!(!index.index_exists("gone"));
    assert!(!index.index_exists("notes"));
    assert_eq!(index.list_indexes(), names(&["here", "new", "empty"]));
}
