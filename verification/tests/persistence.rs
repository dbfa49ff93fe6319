use geng_db::db::InMemoryDB;
use geng_db::digest::{
    calculate_data_hash, calculate_sha256, canonical_bytes, create_data_hash, verify_data_hash,
    verify_data_integrity,
};
use geng_db::hash_index::HashIndex;
use geng_db::layout::{file_name, hash_path, is_backup_name, parent_dir, PersistedState};
use geng_db::persist::{
    choose_backup, classify, is_eligible, BackupCandidate, FileContent, FileOp, LoadError,
    OnFailure, Step,
};
use geng_db::value::{Member, Number, Value};
use std::collections::BTreeMap;

// A disk in memory: files by path, each with its text and the time of its
// last change. The clock ticks with every write.
struct Disk {
    files: BTreeMap<String, (String, u64)>,
    dirs: Vec<String>,
    clock: u64,
    renames_fail: bool,
}

fn new_disk() -> Disk {
    Disk { files: BTreeMap::new(), dirs: Vec::new(), clock: 1000, renames_fail: false }
}

fn put(disk: &mut Disk, path: &str, text: &str) {
    disk.clock += 1;
    disk.files.insert(path.to_string(), (text.to_string(), disk.clock));
}

fn apply(disk: &mut Disk, op: &FileOp) -> Result<(), String> {
    match op {
        FileOp::CreateDirAll { path } => {
            disk.dirs.push(path.clone());
            Ok(())
        }
        FileOp::Copy { from, to } => match disk.files.get(from).cloned() {
            Some((text, _)) => {
                put(disk, to, &text);
                Ok(())
            }
            None => Err(format!("no file {}", from)),
        },
        FileOp::Write { path, contents } => {
            put(disk, path, contents);
            Ok(())
        }
        FileOp::Rename { from, to } => {
            if disk.renames_fail {
                return Err(format!("cannot rename {}", from));
            }
            match disk.files.remove(from) {
                Some(entry) => {
                    disk.files.insert(to.clone(), entry);
                    Ok(())
                }
                None => Err(format!("no file {}", from)),
            }
        }
        FileOp::Remove { path } => match disk.files.remove(path) {
            Some(_) => Ok(()),
            None => Err(format!("no file {}", path)),
        },
    }
}

fn run(disk: &mut Disk, plan: Vec<Step>) -> Result<(), String> {
    for step in plan.iter() {
        if let Err(e) = apply(disk, &step.op) {
            match &step.on_failure {
                OnFailure::Fail => return Err(e),
                OnFailure::CleanUp(op) => {
                    let _ = apply(disk, op);
                    return Err(e);
                }
                OnFailure::Ignore => {}
            }
        }
    }
    Ok(())
}

fn from_json(v: &serde_json::Value) -> Value {
    match v {
        serde_json::Value::Null => Value::Null,
        serde_json::Value::Bool(b) => Value::Bool(*b),
        serde_json::Value::Number(n) => {
            if let Some(u) = n.as_u64() {
                Value::from_u64(u)
            } else if let Some(i) = n.as_i64() {
                Value::from_i64(i)
            } else {
                Value::from_float_bits(n.as_f64().unwrap().to_bits())
            }
        }
        serde_json::Value::String(s) => Value::string(s),
        serde_json::Value::Array(a) => Value::array(a.iter().map(from_json).collect()),
        serde_json::Value::Object(o) => Value::object_from(
            o.iter().map(|(k, v)| Member { key: k.clone(), value: from_json(v) }).collect(),
        ),
    }
}

fn to_json(v: &Value) -> serde_json::Value {
    match v {
        Value::Null => serde_json::Value::Null,
        Value::Bool(b) => serde_json::Value::Bool(*b),
        Value::Number(Number::PosInt(u)) => serde_json::Value::from(*u),
        Value::Number(Number::NegInt(i)) => serde_json::Value::from(*i),
        Value::Number(Number::Float(bits)) => serde_json::Value::from(f64::from_bits(*bits)),
        Value::String(s) => serde_json::Value::String(s.clone()),
        Value::Array(a) => serde_json::Value::Array(a.iter().map(to_json).collect()),
        Value::Object(m) => members_to_json(m),
    }
}

fn members_to_json(m: &[Member]) -> serde_json::Value {
    let mut map = serde_json::Map::new();
    for member in m.iter() {
        map.insert(member.key.clone(), to_json(&member.value));
    }
    serde_json::Value::Object(map)
}

fn json(text: &str) -> Value {
    from_json(&serde_json::from_str::<serde_json::Value>(text).unwrap())
}

fn records(text: &str) -> Vec<Member> {
    match json(text) {
        Value::Object(m) => m,
        _ => panic!("no object"),
    }
}

fn read(disk: &Disk, path: &str) -> FileContent {
    match disk.files.get(path) {
        None => FileContent::Missing,
        Some((text, _)) => {
            let parsed = serde_json::from_str::<serde_json::Value>(text).ok().map(|v| from_json(&v));
            classify(text, parsed)
        }
    }
}

fn save(db: &InMemoryDB, disk: &mut Disk) -> Result<(), String> {
    let text = serde_json::to_string_pretty(&members_to_json(db.snapshot())).unwrap();
    let exists = match &db.persisted.data_file {
        Some(path) => disk.files.contains_key(path),
        None => false,
    };
    let now = disk.clock;
    run(disk, db.save(&text, exists, now))
}

fn open(disk: &Disk, path: &str) -> InMemoryDB {
    InMemoryDB::new_with_persistence(path, read(disk, path))
}

fn insert(db: &mut InMemoryDB, disk: &mut Disk, key: &str, value: Value) {
    if db.insert(key, value) {
        save(db, disk).unwrap();
    }
}

fn reload(db: &mut InMemoryDB, disk: &Disk) -> Result<(), LoadError> {
    let found = match &db.persisted.data_file {
        Some(path) => read(disk, path),
        None => FileContent::Missing,
    };
    db.reload(found)
}

fn backups(db: &InMemoryDB, disk: &Disk) -> Vec<BackupCandidate> {
    let path = db.persisted.data_file.clone().unwrap();
    let dir = parent_dir(&path).unwrap();
    let mut found = Vec::new();
    for (file, (_, modified)) in disk.files.iter() {
        if parent_dir(file).as_deref() != Some(dir.as_str()) {
            continue;
        }
        let name = file_name(file);
        if !is_backup_name(&path, &name) {
            continue;
        }
        let stored = disk.files.get(&hash_path(&db.persisted.hash_dir, &name));
        found.push(BackupCandidate {
            name,
            modified: *modified,
            content: read(disk, file),
            stored_hash: stored.map(|(text, _)| text.clone()),
        });
    }
    found
}

fn repair(db: &mut InMemoryDB, disk: &mut Disk) -> Option<String> {
    let candidates = backups(db, disk);
    let names: Vec<String> = candidates.iter().map(|c| c.name.clone()).collect();
    let (adopted, due) = db.repair_file(candidates);
    if due {
        save(db, disk).unwrap();
    }
    adopted.map(|i| names[i].clone())
}

fn validate(db: &InMemoryDB, disk: &Disk) -> bool {
    let found = match &db.persisted.data_file {
        Some(path) => read(disk, path),
        None => FileContent::Missing,
    };
    db.validate_file_integrity(&found)
}

fn count_backup_files(disk: &Disk, path: &str) -> usize {
    disk.files
        .keys()
        .filter(|f| parent_dir(f) == parent_dir(path) && is_backup_name(path, &file_name(f)))
        .count()
}

fn must(op: FileOp) -> Step {
    Step { op, on_failure: OnFailure::Fail }
}

fn may(op: FileOp) -> Step {
    Step { op, on_failure: OnFailure::Ignore }
}

fn copy(from: &str, to: &str) -> FileOp {
    FileOp::Copy { from: from.to_string(), to: to.to_string() }
}

fn write(path: &str, contents: &str) -> FileOp {
    FileOp::Write { path: path.to_string(), contents: contents.to_string() }
}

const HASH_OF_K_V: &str = "081371934407634d3c01eefdf5c51751332128b8e60205a3445ba8503191ab7e";
const HASH_OF_NOTHING: &str = "e3b0c44298fc1c149afbf4c8996fb92427ae41e4649b934ca495991b7852b855";

#[test]
fn sha256_has_its_known_values() {
    assert_eq!(
        calculate_sha256("abc"),
        "ba7816bf8f01cfea414140de5dae2223b00361a396177a9cb410ff61f20015ad"
    );
    assert_eq!(calculate_sha256(""), HASH_OF_NOTHING);
    assert_ne!(calculate_sha256("abc"), calculate_sha256("abd"));
}

#[test]
fn the_digest_of_records_is_that_of_their_canonical_bytes() {
    let one = records("{\"k\":\"v\"}");
    assert_eq!(canonical_bytes(&one), b"k\x03v\xff".to_vec());
    assert_eq!(create_data_hash(&one), HASH_OF_K_V);
    assert_eq!(calculate_data_hash(&one), HASH_OF_K_V);
    assert_eq!(create_data_hash(&Vec::new()), HASH_OF_NOTHING);
    let two = records("{\"b\":true,\"a\":1}");
    let mut expected = b"a\x02".to_vec();
    expected.extend_from_slice(&1u64.to_le_bytes());
    expected.extend_from_slice(b"b\x01\x01");
    assert_eq!(canonical_bytes(&two), expected);
    assert_eq!(
        create_data_hash(&two),
        "c9e57a1e0e1717bc2fd59683245d7ed6475f31a7801c4f45fba5495ebf9951e0"
    );
}

#[test]
fn the_digest_of_records_ignores_the_order_of_members() {
    let one = records("{\"x\":{\"p\":1,\"q\":[1,2]},\"y\":null}");
    let other = records("{\"y\":null,\"x\":{\"q\":[1,2],\"p\":1}}");
    assert_eq!(create_data_hash(&one), create_data_hash(&other));
    let different = records("{\"y\":null,\"x\":{\"q\":[2,1],\"p\":1}}");
    assert_ne!(create_data_hash(&one), create_data_hash(&different));
}

#[test]
fn digests_are_compared_with_and_without_white_space() {
    let one = records("{\"k\":\"v\"}");
    assert!(verify_data_hash(&one, HASH_OF_K_V));
    assert!(!verify_data_hash(&one, HASH_OF_NOTHING));
    assert!(!verify_data_hash(&one, &format!("{}\n", HASH_OF_K_V)));
    assert!(verify_data_integrity(&one, Some(HASH_OF_K_V)));
    assert!(verify_data_integrity(&one, Some(&format!("  {}\n", HASH_OF_K_V))));
    assert!(!verify_data_integrity(&one, Some(HASH_OF_NOTHING)));
    assert!(!verify_data_integrity(&one, Some("")));
    assert!(!verify_data_integrity(&one, None));
    let mut db = InMemoryDB::new();
    db.insert("k", Value::string("v"));
    assert!(db.verify_data_integrity(Some(HASH_OF_K_V)));
    db.insert("k", Value::string("w"));
    assert!(!db.verify_data_integrity(Some(HASH_OF_K_V)));
    assert!(!db.verify_data_integrity(None));
}

#[test]
fn a_file_is_blank_or_records_or_invalid() {
    assert_eq!(classify("", None), FileContent::Blank);
    assert_eq!(classify("  \n\t ", None), FileContent::Blank);
    assert_eq!(classify("  ", Some(Value::Null)), FileContent::Blank);
    assert_eq!(classify("invalid json content", None), FileContent::Invalid);
    assert_eq!(classify("[1]", Some(json("[1]"))), FileContent::Invalid);
    assert_eq!(classify("null", Some(Value::Null)), FileContent::Invalid);
    assert_eq!(classify("{}", Some(json("{}"))), FileContent::Records(vec![]));
    assert_eq!(
        classify("{\"k\":\"v\"}", Some(json("{\"k\":\"v\"}"))),
        FileContent::Records(vec![Member { key: "k".to_string(), value: Value::string("v") }])
    );
}

#[test]
fn a_save_is_these_steps_in_this_order() {
    let mut db = InMemoryDB::with_data_file("stpers/test_db.json");
    db.insert("k", Value::string("v"));
    let first = db.save("{TEXT}", false, 1700000000);
    assert_eq!(
        first,
        vec![
            must(FileOp::CreateDirAll { path: "stpers".to_string() }),
            must(write("stpers/test_db.tmp", "{TEXT}")),
            Step {
                op: FileOp::Rename {
                    from: "stpers/test_db.tmp".to_string(),
                    to: "stpers/test_db.json".to_string(),
                },
                on_failure: OnFailure::CleanUp(FileOp::Remove {
                    path: "stpers/test_db.tmp".to_string(),
                }),
            },
            must(write("hashes/test_db.json.hash", HASH_OF_K_V)),
        ]
    );
    let second = db.save("{TEXT}", true, 1700000000);
    assert_eq!(second.len(), 6);
    assert_eq!(
        second[0],
        must(copy("stpers/test_db.json", "stpers/test_db.backup.1700000000"))
    );
    assert_eq!(
        second[1],
        may(copy("hashes/test_db.json.hash", "hashes/test_db.backup.1700000000.hash"))
    );
    assert_eq!(second[2..], first[..]);
    db.set_backup_enabled(false);
    assert_eq!(db.save("{TEXT}", true, 1700000000), first);
}

#[test]
fn the_files_of_a_save_are_different_files_unless_the_data_file_is_named_like_another() {
    let db = InMemoryDB::with_data_file("stpers/test_db.json");
    assert!(db.save_is_safe(false, 17));
    assert!(db.save_is_safe(true, 17));
    // The temporary file of `db.tmp` is `db.tmp` itself.
    let odd = InMemoryDB::with_data_file("stpers/db.tmp");
    assert!(!odd.save_is_safe(false, 17));
    assert!(!odd.save_is_safe(true, 17));
    // The backup of `db.backup.17` is `db.backup.backup.17`.
    let backup = InMemoryDB::with_data_file("stpers/db.backup.17");
    assert!(backup.save_is_safe(true, 17));
    assert!(InMemoryDB::new().save_is_safe(true, 17));
}

#[test]
fn a_store_is_kept_where_its_layout_says() {
    let mut db = InMemoryDB::with_layout(PersistedState {
        data_file: Some("data/db.json".to_string()),
        index_dir: "data/indexes".to_string(),
        hash_dir: "data/hashes".to_string(),
    });
    assert!(db.auto_save);
    assert!(db.backup_enabled);
    db.create_index("i");
    let plan = db.save("{}", false, 1);
    assert_eq!(plan.last(), Some(&must(write("data/hashes/db.json.hash", HASH_OF_NOTHING))));
    let index_plan = db.save_index("i");
    assert_eq!(index_plan[0], must(write("data/indexes/i.tmp", "{}")));
    let memory = InMemoryDB::with_layout(PersistedState {
        data_file: None,
        index_dir: "i".to_string(),
        hash_dir: "h".to_string(),
    });
    assert!(!memory.backup_enabled);
    assert!(!memory.save_due());
}

#[test]
fn a_save_without_a_directory_or_without_a_data_file() {
    let db = InMemoryDB::with_data_file("db.json");
    let plan = db.save("{}", false, 5);
    assert_eq!(plan.len(), 3);
    assert_eq!(plan[0], must(write("db.tmp", "{}")));
    assert_eq!(plan[2], must(write("hashes/db.json.hash", HASH_OF_NOTHING)));
    let memory = InMemoryDB::new();
    assert_eq!(memory.save("{}", true, 5), vec![]);
}

#[test]
fn the_steps_of_an_index() {
    let mut db = InMemoryDB::new();
    db.create_index("names");
    assert_eq!(
        db.save_index("names"),
        vec![
            must(write("Indefx/names.tmp", "{}")),
            Step {
                op: FileOp::Rename {
                    from: "Indefx/names.tmp".to_string(),
                    to: "Indefx/names.json".to_string(),
                },
                on_failure: OnFailure::CleanUp(FileOp::Remove {
                    path: "Indefx/names.tmp".to_string(),
                }),
            },
            must(write(
                "hashes/names.hash",
                "44136fa355b3678a1146ad16f7e8649e94fb4fc21fe77e8310c060f61caaff8a"
            )),
        ]
    );
    assert_eq!(db.save_index("none"), vec![]);
    assert_eq!(
        HashIndex::setup("Indefx", "hashes"),
        vec![
            may(FileOp::CreateDirAll { path: "Indefx".to_string() }),
            may(FileOp::CreateDirAll { path: "hashes".to_string() }),
        ]
    );
    assert_eq!(
        HashIndex::drop_index_files("Indefx", "hashes", "names"),
        vec![
            may(FileOp::Remove { path: "Indefx/names.json".to_string() }),
            may(FileOp::Remove { path: "hashes/names.hash".to_string() }),
        ]
    );
    assert_eq!(
        HashIndex::save_data_hash("hashes", "database.json", "abc"),
        must(write("hashes/database.json.hash", "abc"))
    );
}

#[test]
fn an_index_is_checked_against_its_hash_record() {
    let mut index = HashIndex::new();
    index.create_index("i");
    let empty = "44136fa355b3678a1146ad16f7e8649e94fb4fc21fe77e8310c060f61caaff8a";
    assert!(index.verify_index_integrity("i", true, Some(empty)));
    assert!(index.verify_index_integrity("i", true, Some(&format!("{}\n", empty))));
    assert!(!index.verify_index_integrity("i", false, Some(empty)));
    assert!(!index.verify_index_integrity("i", true, None));
    assert!(!index.verify_index_integrity("none", true, Some(empty)));
    index.add_to_index("i", "k", &Value::Null);
    assert!(!index.verify_index_integrity("i", true, Some(empty)));
}

#[test]
fn a_rename_that_fails_leaves_the_file_and_no_temporary_file() {
    let mut disk = new_disk();
    let mut db = open(&disk, "stpers/db.json");
    insert(&mut db, &mut disk, "a", Value::from_u64(1));
    let before = disk.files.get("stpers/db.json").unwrap().0.clone();
    disk.renames_fail = true;
    db.insert("b", Value::from_u64(2));
    assert!(save(&db, &mut disk).is_err());
    assert_eq!(disk.files.get("stpers/db.json").unwrap().0, before);
    assert!(!disk.files.contains_key("stpers/db.tmp"));
}

#[test]
fn save_and_reload_give_the_same_records() {
    let mut disk = new_disk();
    let mut db = open(&disk, "data/round.json");
    db.set_auto_save(false);
    db.insert("a", json("{\"n\":1,\"list\":[1,-2,3.5,\"x\",null,true],\"o\":{\"z\":1,\"y\":{}}}"));
    db.insert("b", Value::string("quote \" and \\ and \n and é"));
    db.insert("c", Value::from_u64(u64::MAX));
    db.insert("d", Value::from_i64(i64::MIN));
    db.insert("e", Value::from_float_bits(0.1f64.to_bits()));
    db.insert("", Value::array(vec![]));
    db.update("a", json("{\"n\":2}"));
    db.update("zzz", Value::Null);
    db.delete("b");
    db.delete("never");
    db.insert("b", Value::Bool(false));
    let before: Vec<Member> = geng_db::value_ops::clone_members(db.snapshot());
    save(&db, &mut disk).unwrap();
    db.insert("temp", Value::string("not_saved"));
    db.delete("a");
    assert_eq!(reload(&mut db, &disk), Ok(()));
    assert_eq!(db.snapshot(), &before);
    let fresh = open(&disk, "data/round.json");
    assert_eq!(fresh.snapshot(), &before);
    assert!(fresh.verify_data_integrity(
        disk.files.get("hashes/round.json.hash").map(|(text, _)| text.as_str())
    ));
}

#[test]
fn reload_takes_over_what_was_found() {
    let mut db = InMemoryDB::with_data_file("db.json");
    db.create_index("i");
    db.insert("old", Value::from_u64(1));
    assert_eq!(db.reload(FileContent::Missing), Ok(()));
    assert!(db.contains_key("old"));
    assert_eq!(db.reload(FileContent::Invalid), Err(LoadError::Malformed));
    assert!(db.contains_key("old"));
    assert_eq!(db.reload(FileContent::Records(records("{\"new\":1,\"more\":1}"))), Ok(()));
    assert_eq!(db.keys(), vec!["more".to_string(), "new".to_string()]);
    // The index was built anew from what was loaded.
    assert_eq!(
        db.find_by_value("i", &Value::from_u64(1)),
        vec!["more".to_string(), "new".to_string()]
    );
    assert_eq!(db.reload(FileContent::Blank), Ok(()));
    assert!(db.is_empty());
    assert_eq!(db.find_by_value("i", &Value::from_u64(1)), Vec::<String>::new());
    assert!(db.index_exists("i"));
    let mut memory = InMemoryDB::new();
    memory.insert("k", Value::Null);
    assert_eq!(memory.reload(FileContent::Invalid), Ok(()));
    assert_eq!(memory.reload(FileContent::Blank), Ok(()));
    assert!(memory.contains_key("k"));
}

#[test]
fn tampering_with_the_file_is_seen_and_leaves_the_store_alone() {
    let mut disk = new_disk();
    let mut db = open(&disk, "stpers/tamper.json");
    insert(&mut db, &mut disk, "k", Value::string("v"));
    assert!(validate(&db, &disk));
    put(&mut disk, "stpers/tamper.json", "\u{1}\u{2} arbitrary bytes {{{");
    assert!(!validate(&db, &disk));
    assert_eq!(db.get("k"), Some(&Value::string("v")));
    assert_eq!(db.len(), 1);
    // The records in memory are still what the hash record says.
    let stored = disk.files.get("hashes/tamper.json.hash").map(|(text, _)| text.clone());
    assert_eq!(stored.as_deref(), Some(HASH_OF_K_V));
    assert!(db.verify_data_integrity(stored.as_deref()));
    // Content that parses but is not what was saved passes the first check
    // and fails the second.
    put(&mut disk, "stpers/tamper.json", "{\"k\":\"x\"}");
    assert!(validate(&db, &disk));
    let mut other = open(&disk, "stpers/tamper.json");
    assert!(!other.verify_data_integrity(stored.as_deref()));
    assert_eq!(reload(&mut other, &disk), Ok(()));
}

#[test]
fn validation_goes_by_what_was_found() {
    let db = InMemoryDB::with_data_file("db.json");
    assert!(!db.validate_file_integrity(&FileContent::Missing));
    assert!(db.validate_file_integrity(&FileContent::Blank));
    assert!(!db.validate_file_integrity(&FileContent::Invalid));
    assert!(db.validate_file_integrity(&FileContent::Records(vec![])));
    let memory = InMemoryDB::new();
    assert!(memory.validate_file_integrity(&FileContent::Missing));
    assert!(memory.validate_file_integrity(&FileContent::Invalid));
}

#[test]
fn repair_restores_the_newest_backup_that_parses_and_verifies() {
    let mut disk = new_disk();
    let mut db = open(&disk, "stpers/repair.json");
    db.create_index("i");
    insert(&mut db, &mut disk, "a", Value::from_u64(1));
    // The second save keeps the first file as a backup, with its hash record.
    insert(&mut db, &mut disk, "b", Value::from_u64(2));
    assert_eq!(count_backup_files(&disk, "stpers/repair.json"), 1);
    put(&mut disk, "stpers/repair.json", "corrupted content");
    assert!(!validate(&db, &disk));
    let adopted = repair(&mut db, &mut disk);
    assert!(adopted.is_some());
    assert_eq!(db.snapshot(), &records("{\"a\":1}"));
    assert_eq!(db.find_by_value("i", &Value::from_u64(1)), vec!["a".to_string()]);
    assert_eq!(db.find_by_value("i", &Value::from_u64(2)), Vec::<String>::new());
    assert!(validate(&db, &disk));
    assert_eq!(open(&disk, "stpers/repair.json").snapshot(), &records("{\"a\":1}"));
}

#[test]
fn repair_passes_over_backups_that_do_not_parse_or_verify() {
    let mut disk = new_disk();
    let mut db = open(&disk, "stpers/r.json");
    put(&mut disk, "stpers/r.backup.1", "{\"a\":1}");
    put(&mut disk, "hashes/r.backup.1.hash", &create_data_hash(&records("{\"a\":1}")));
    put(&mut disk, "stpers/r.backup.2", "{\"a\":2}");
    put(&mut disk, "hashes/r.backup.2.hash", &create_data_hash(&records("{\"a\":999}")));
    put(&mut disk, "stpers/r.backup.3", "not json");
    put(&mut disk, "stpers/r.json", "corrupted");
    put(&mut disk, "stpers/other.backup.9", "{\"a\":9}");
    assert_eq!(repair(&mut db, &mut disk), Some("r.backup.1".to_string()));
    assert_eq!(db.snapshot(), &records("{\"a\":1}"));
    // A backup without a hash record is taken at its word.
    put(&mut disk, "stpers/r.backup.4", "{\"a\":4}");
    assert_eq!(repair(&mut db, &mut disk), Some("r.backup.4".to_string()));
    assert_eq!(db.snapshot(), &records("{\"a\":4}"));
}

#[test]
fn repair_without_a_good_backup_empties_the_store() {
    let mut disk = new_disk();
    let mut db = open(&disk, "stpers/none.json");
    db.set_backup_enabled(false);
    db.create_index("i");
    insert(&mut db, &mut disk, "repair_test", Value::string("original"));
    put(&mut disk, "stpers/none.json", "corrupted content");
    put(&mut disk, "stpers/none.backup.1", "garbage");
    assert_eq!(repair(&mut db, &mut disk), None);
    assert_eq!(db.len(), 0);
    assert_eq!(db.find_by_value("i", &Value::string("original")), Vec::<String>::new());
    assert!(validate(&db, &disk));
    assert_eq!(disk.files.get("stpers/none.json").unwrap().0, "{}");
    assert_eq!(disk.files.get("hashes/none.json.hash").unwrap().0, HASH_OF_NOTHING);
}

#[test]
fn repair_leaves_a_store_without_a_data_file_alone() {
    let mut db = InMemoryDB::new();
    db.insert("k", Value::Null);
    assert_eq!(db.repair_file(vec![]), (None, false));
    assert!(db.contains_key("k"));
}

#[test]
fn of_backups_changed_at_the_same_time_the_last_listed_is_tried_first() {
    let candidate = |name: &str, modified: u64, text: &str| BackupCandidate {
        name: name.to_string(),
        modified,
        content: classify(text, serde_json::from_str::<serde_json::Value>(text).ok().map(|v| from_json(&v))),
        stored_hash: None,
    };
    let list = vec![
        candidate("db.backup.1", 50, "{\"n\":1}"),
        candidate("db.backup.2", 70, "{\"n\":2}"),
        candidate("db.backup.3", 70, "{\"n\":3}"),
        candidate("db.backup.4", 90, "broken"),
        candidate("xx.backup.5", 99, "{\"n\":5}"),
        candidate("db.backup.6", 60, "{\"n\":6}"),
    ];
    assert_eq!(choose_backup("dir/db.json", &list), Some(2));
    assert!(is_eligible("dir/db.json", &list[0]));
    assert!(!is_eligible("dir/db.json", &list[3]));
    assert!(!is_eligible("dir/db.json", &list[4]));
    assert_eq!(choose_backup("dir/db.json", &list[..2].iter().map(|c| BackupCandidate {
        name: c.name.clone(),
        modified: c.modified,
        content: FileContent::Invalid,
        stored_hash: None,
    }).collect()), None);
    assert_eq!(choose_backup("dir/db.json", &Vec::new()), None);
    let mut db = InMemoryDB::with_data_file("dir/db.json");
    assert_eq!(db.repair_file(list), (Some(2), true));
    assert_eq!(db.snapshot(), &records("{\"n\":3}"));
}

#[test]
fn test_persistence_operations() {
    let mut disk = new_disk();
    {
        let mut db = InMemoryDB::new_persistent(
            "test_persistence.json",
            read(&disk, "stpers/test_persistence.json"),
        );
        insert(&mut db, &mut disk, "persistent_key", Value::string("persistent_value"));
        insert(&mut db, &mut disk, "number", Value::from_u64(42));
        assert_eq!(db.len(), 2, "Database should have 2 entries");
    }
    {
        let db = InMemoryDB::new_persistent(
            "test_persistence.json",
            read(&disk, "stpers/test_persistence.json"),
        );
        assert_eq!(db.len(), 2, "Loaded database should have 2 entries");
        assert_eq!(
            db.get("persistent_key"),
            Some(&Value::string("persistent_value")),
            "Should load persistent_key"
        );
        assert_eq!(db.get("number"), Some(&Value::from_u64(42)), "Should load number");
    }
    {
        let mut db = open(&disk, "test_custom_path.json");
        insert(&mut db, &mut disk, "custom", Value::string("path_test"));
        assert!(disk.files.contains_key("test_custom_path.json"), "Custom path file should exist");
    }
    {
        let mut db = InMemoryDB::new_persistent(
            "test_persistence.json",
            read(&disk, "stpers/test_persistence.json"),
        );
        insert(&mut db, &mut disk, "manual_test", Value::string("before_save"));
        save(&db, &mut disk).expect("Manual save should succeed");
        db.set_auto_save(false);
        insert(&mut db, &mut disk, "temp", Value::string("not_saved"));
        reload(&mut db, &disk).expect("Reload should succeed");
        assert!(db.contains_key("manual_test"), "Should have saved data");
        assert!(!db.contains_key("temp"), "Should not have unsaved data");
    }
}

#[test]
fn test_auto_save_functionality() {
    let mut disk = new_disk();
    let mut db = InMemoryDB::new_persistent(
        "test_autosave.json",
        read(&disk, "stpers/test_autosave.json"),
    );
    insert(&mut db, &mut disk, "auto_save_test", Value::string("enabled"));
    let file_content = disk.files.get("stpers/test_autosave.json").unwrap().0.clone();
    assert!(file_content.contains("auto_save_test"), "File should contain auto-saved data");

    db.set_auto_save(false);
    insert(&mut db, &mut disk, "no_auto_save", Value::string("disabled"));
    reload(&mut db, &disk).expect("Reload should succeed");
    assert!(!db.contains_key("no_auto_save"), "Non-auto-saved data should not persist");
    assert!(db.contains_key("auto_save_test"), "Auto-saved data should still exist");

    db.set_auto_save(true);
    insert(&mut db, &mut disk, "re_enabled", Value::string("auto_save"));
    reload(&mut db, &disk).expect("Reload should succeed");
    assert!(db.contains_key("re_enabled"), "Re-enabled auto-save should work");
}

#[test]
fn test_backup_functionality() {
    let mut disk = new_disk();
    let mut db = InMemoryDB::new_persistent(
        "test_backup.json",
        read(&disk, "stpers/test_backup.json"),
    );
    db.set_backup_enabled(true);
    insert(&mut db, &mut disk, "backup_test", Value::string("initial"));
    insert(&mut db, &mut disk, "backup_test2", Value::string("second"));
    let backup_exists =
        disk.files.keys().any(|f| file_name(f).contains("test_backup.backup."));
    assert!(backup_exists, "Backup files should be created when enabled");

    db.set_backup_enabled(false);
    let initial_backup_count = count_backup_files(&disk, "stpers/test_backup.json");
    insert(&mut db, &mut disk, "no_backup", Value::string("test"));
    let final_backup_count = count_backup_files(&disk, "stpers/test_backup.json");
    assert_eq!(
        initial_backup_count, final_backup_count,
        "No new backups should be created when disabled"
    );
}

#[test]
fn test_file_integrity_and_repair() {
    let mut disk = new_disk();
    {
        let mut db = InMemoryDB::new_persistent(
            "test_integrity.json",
            read(&disk, "stpers/test_integrity.json"),
        );
        insert(&mut db, &mut disk, "integrity_test", Value::string("valid_data"));
        assert!(validate(&db, &disk), "Valid file should pass integrity check");
    }
    put(&mut disk, "stpers/test_integrity.json", "invalid json content");
    {
        let db = InMemoryDB::new_persistent(
            "test_integrity.json",
            read(&disk, "stpers/test_integrity.json"),
        );
        assert!(!validate(&db, &disk), "Corrupted file should fail integrity check");
    }
    {
        let mut db = InMemoryDB::new_persistent(
            "test_repair.json",
            read(&disk, "stpers/test_repair.json"),
        );
        db.set_backup_enabled(true);
        insert(&mut db, &mut disk, "repair_test", Value::string("original"));
        put(&mut disk, "stpers/test_repair.json", "corrupted content");
        repair(&mut db, &mut disk);
        assert_eq!(db.len(), 0, "Repaired database should be initialized as empty");
        assert!(validate(&db, &disk), "Repaired file should pass integrity check");
    }
}

#[test]
fn test_edge_cases() {
    let mut disk = new_disk();
    let mut db = InMemoryDB::new_persistent("test_edge.json", read(&disk, "stpers/test_edge.json"));
    insert(&mut db, &mut disk, "", Value::string("empty_key"));
    assert_eq!(db.get(""), Some(&Value::string("empty_key")), "Should retrieve value for empty key");

    let complex_value = json(
        "{\"nested\":{\"array\":[1,2,3],\"object\":{\"key\":\"value\"}},\"null_value\":null,\"boolean\":true,\"number\":3.14159}",
    );
    insert(&mut db, &mut disk, "complex", complex_value.deep_clone());
    assert_eq!(db.get("complex"), Some(&complex_value), "Should retrieve complex JSON correctly");

    insert(&mut db, &mut disk, "overwrite", Value::string("original"));
    insert(&mut db, &mut disk, "overwrite", Value::string("updated"));
    assert_eq!(
        db.get("overwrite"),
        Some(&Value::string("updated")),
        "Insert should overwrite existing key"
    );

    if db.delete("non_existent") {
        save(&db, &mut disk).expect("Delete should not fail for non-existent key");
    }
    if db.delete("overwrite") {
        save(&db, &mut disk).expect("Delete should succeed");
    }
    assert!(
        !db.update("overwrite", Value::string("after_delete")).0,
        "Update should return false for deleted key"
    );

    let long_key = "a".repeat(1000);
    insert(&mut db, &mut disk, &long_key, Value::string("long_key_value"));
    assert_eq!(
        db.get(&long_key),
        Some(&Value::string("long_key_value")),
        "Should retrieve value for long key"
    );
    let again = InMemoryDB::new_persistent("test_edge.json", read(&disk, "stpers/test_edge.json"));
    assert_eq!(again.snapshot(), db.snapshot());
}

#[test]
fn test_error_handling() {
    let mut memory_db = InMemoryDB::new();
    assert!(!memory_db.insert("test", Value::string("value")));
    assert!(!memory_db.delete("test"));
    assert!(!memory_db.clear());

    let mut disk = new_disk();
    let mut nested = open(&disk, "deep/nested/path/test.json");
    insert(&mut nested, &mut disk, "k", Value::Null);
    assert!(disk.dirs.contains(&"deep/nested/path".to_string()));

    put(&mut disk, "stpers/empty_test.json", "");
    let db = InMemoryDB::new_persistent("empty_test.json", read(&disk, "stpers/empty_test.json"));
    assert_eq!(db.len(), 0, "Empty file should result in empty database");

    put(&mut disk, "stpers/whitespace_test.json", "   \n\t  \n  ");
    let db = InMemoryDB::new_persistent(
        "whitespace_test.json",
        read(&disk, "stpers/whitespace_test.json"),
    );
    assert_eq!(db.len(), 0, "Whitespace-only file should result in empty database");
}
