use geng_db::layout::{
    backup_path, file_name, file_stem, hash_path, index_name, index_path, is_backup_name, join,
    parent_dir, temp_path, with_extension,
};
use geng_db::text::{
    char_is_space, concat2, concat3, decimal_string, ends_with, is_blank, same_text, starts_with,
    trim,
};
use std::path::Path;

#[test]
fn white_space_is_what_std_takes_for_it() {
    for code in 0u32..0x3100 {
        if let Some(c) = char::from_u32(code) {
            assert_eq!(char_is_space(c), c.is_whitespace());
        }
    }
    assert!(!char_is_space('a'));
    assert!(char_is_space(' '));
    assert!(char_is_space('\n'));
    assert!(char_is_space('\u{3000}'));
}

#[test]
fn blank_texts_are_empty_or_white_space() {
    assert!(is_blank(""));
    assert!(is_blank(" "));
    assert!(is_blank("   \n\t  \n  "));
    assert!(is_blank("\u{a0}\u{2003}"));
    assert!(!is_blank("{}"));
    assert!(!is_blank("  x  "));
    assert!(!is_blank("\n\n."));
}

#[test]
fn trim_takes_white_space_off_both_ends() {
    assert_eq!(trim(""), "");
    assert_eq!(trim("   "), "");
    assert_eq!(trim("abc"), "abc");
    assert_eq!(trim("  abc"), "abc");
    assert_eq!(trim("abc \n"), "abc");
    assert_eq!(trim("\t a b \r\n"), "a b");
    assert_eq!(trim(" é "), "é");
    for text in ["", " ", "a", " a", "a ", "  a  b  ", "\n\nx\n", "\u{3000}y\u{85}"] {
        assert_eq!(trim(text), text.trim());
    }
}

#[test]
fn prefixes_and_suffixes() {
    assert!(starts_with("test_db.backup.17", "test_db.backup."));
    assert!(!starts_with("test_db.json", "test_db.backup."));
    assert!(starts_with("abc", ""));
    assert!(starts_with("abc", "abc"));
    assert!(!starts_with("ab", "abc"));
    assert!(!starts_with("xbc", "abc"));
    assert!(ends_with("names.json", ".json"));
    assert!(!ends_with("names.jsn", ".json"));
    assert!(ends_with("abc", ""));
    assert!(ends_with(".json", ".json"));
    assert!(!ends_with("json", ".json"));
    assert!(same_text("abc", "abc"));
    assert!(!same_text("abc", "abd"));
    assert!(!same_text("abc", "ab"));
    assert!(same_text("", ""));
}

#[test]
fn numbers_are_written_in_decimal() {
    assert_eq!(decimal_string(0), "0");
    assert_eq!(decimal_string(7), "7");
    assert_eq!(decimal_string(10), "10");
    assert_eq!(decimal_string(1700000000), "1700000000");
    assert_eq!(decimal_string(u64::MAX), "18446744073709551615");
    for n in [1u64, 9, 11, 99, 100, 101, 12345678901234567] {
        assert_eq!(decimal_string(n), n.to_string());
    }
}

#[test]
fn texts_are_joined_in_order() {
    assert_eq!(concat2("ab", "cd"), "abcd");
    assert_eq!(concat2("", ""), "");
    assert_eq!(concat3("a", "", "b"), "ab");
    assert_eq!(concat3("x", "/", "y"), "x/y");
}

#[test]
fn a_path_has_a_directory_a_name_and_a_stem() {
    assert_eq!(file_name("stpers/test_db.json"), "test_db.json");
    assert_eq!(file_stem("stpers/test_db.json"), "test_db");
    assert_eq!(parent_dir("stpers/test_db.json"), Some("stpers".to_string()));
    assert_eq!(file_name("test_db.json"), "test_db.json");
    assert_eq!(file_stem("test_db.json"), "test_db");
    assert_eq!(parent_dir("test_db.json"), None);
    assert_eq!(file_name("a/b/c.tar.gz"), "c.tar.gz");
    assert_eq!(file_stem("a/b/c.tar.gz"), "c.tar");
    assert_eq!(parent_dir("a/b/c.tar.gz"), Some("a/b".to_string()));
    assert_eq!(file_stem("dir.d/plain"), "plain");
    assert_eq!(file_stem("dir/.hidden"), ".hidden");
    assert_eq!(file_stem("dir/.hidden.txt"), ".hidden");
    assert_eq!(parent_dir("/top"), None);
    assert_eq!(file_name("/top"), "top");
    assert_eq!(file_name(""), "");
    assert_eq!(file_stem(""), "");
    assert_eq!(parent_dir(""), None);
}

#[test]
fn the_extension_of_a_path_is_replaced() {
    assert_eq!(with_extension("stpers/test_db.json", "tmp"), "stpers/test_db.tmp");
    assert_eq!(with_extension("test_db", "tmp"), "test_db.tmp");
    assert_eq!(with_extension("dir.d/plain", "x"), "dir.d/plain.x");
    assert_eq!(with_extension("a/.hidden", "x"), "a/.hidden.x");
    assert_eq!(with_extension("c.tar.gz", "zip"), "c.tar.zip");
    assert_eq!(temp_path("sessions/s1/database.json"), "sessions/s1/database.tmp");
    assert_eq!(
        backup_path("stpers/test_db.json", 1700000000),
        "stpers/test_db.backup.1700000000"
    );
    assert_eq!(backup_path("db.json", 0), "db.backup.0");
}

#[test]
fn ordinary_paths_are_taken_apart_as_std_takes_them_apart() {
    for path in [
        "stpers/test_db.json",
        "test_db.json",
        "a/b/c.tar.gz",
        "sessions/s1/database.json",
        "dir.d/plain",
        "dir/.hidden",
        "dir/.hidden.txt",
        "noext",
        "deep/nested/path/test.json",
    ] {
        let std_path = Path::new(path);
        assert_eq!(file_name(path), std_path.file_name().unwrap().to_string_lossy());
        assert_eq!(file_stem(path), std_path.file_stem().unwrap().to_string_lossy());
        assert_eq!(with_extension(path, "tmp"), std_path.with_extension("tmp").to_string_lossy());
        assert_eq!(
            with_extension(path, "backup.17"),
            std_path.with_extension("backup.17").to_string_lossy()
        );
        let parent = std_path.parent().unwrap().to_string_lossy().to_string();
        let expected = if parent.is_empty() { None } else { Some(parent) };
        assert_eq!(parent_dir(path), expected);
    }
}

#[test]
fn backups_are_known_by_their_name() {
    assert!(is_backup_name("stpers/test_db.json", "test_db.backup.1700000000"));
    assert!(is_backup_name("stpers/test_db.json", "test_db.backup."));
    assert!(!is_backup_name("stpers/test_db.json", "test_db.json"));
    assert!(!is_backup_name("stpers/test_db.json", "test_db.tmp"));
    assert!(!is_backup_name("stpers/test_db.json", "other.backup.1700000000"));
    assert!(!is_backup_name("stpers/test_db.json", "stpers/test_db.backup.1"));
    assert!(is_backup_name(
        "stpers/test_db.json",
        &file_name(&backup_path("stpers/test_db.json", 12345))
    ));
}

#[test]
fn index_files_and_hash_records_have_their_places() {
    assert_eq!(join("Indefx", "names.json"), "Indefx/names.json");
    assert_eq!(index_path("Indefx", "names"), "Indefx/names.json");
    assert_eq!(hash_path("hashes", "names"), "hashes/names.hash");
    assert_eq!(hash_path("hashes", "database.json"), "hashes/database.json.hash");
    assert_eq!(index_name("names.json"), Some("names".to_string()));
    assert_eq!(index_name("names.json.json"), Some("names".to_string()));
    assert_eq!(index_name(".json"), Some("".to_string()));
    assert_eq!(index_name("names.tmp"), None);
    assert_eq!(index_name("names"), None);
    assert_eq!(index_name(""), None);
    for name in ["a.json", "a.json.json", "b", ".json", "x.jsonjson", "x.json.tmp"] {
        let expected = if name.ends_with(".json") {
            Some(name.trim_end_matches(".json").to_string())
        } else {
            None
        };
        assert_eq!(index_name(name), expected);
    }
}
