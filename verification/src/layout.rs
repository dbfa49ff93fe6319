//! Where things are kept on disk: the data file, its temporary file and its
//! backups, the index files, the hash records. Paths are plain text with `/`
//! between their parts.

use vstd::prelude::*;
use vstd::string::{StrSliceExecFns, StringExecFns};
use crate::text::{
    concat2, concat3, decimal_string, decimal_text, ends_with, has_prefix, has_suffix, starts_with,
};

verus! {

/// The directories beside the data file, and the data file itself.
#[derive(Debug, PartialEq, Eq)]
pub struct PersistedState {
    /// The path of the data file. `None`: nothing is persisted.
    pub data_file: Option<String>,
    /// The directory of the index files.
    pub index_dir: String,
    /// The directory of the hash records.
    pub hash_dir: String,
}

/// The position of the last `c` in `s`, or -1 if there is none.
pub open spec fn last_index_of(s: Seq<char>, c: char) -> int
    decreases s.len(),
{
    if s.len() == 0 {
        -1
    } else if s.last() == c {
        s.len() - 1
    } else {
        last_index_of(s.drop_last(), c)
    }
}

/// Where the file name starts in a path: behind the last `/`.
pub open spec fn name_start(path: Seq<char>) -> int {
    last_index_of(path, '/') + 1
}

/// The file name of a path.
pub open spec fn file_name_of(path: Seq<char>) -> Seq<char> {
    path.subrange(name_start(path), path.len() as int)
}

/// Where the stem of the file name ends in a path: at the last dot of the
/// file name, unless the name has no dot or only the one it starts with.
pub open spec fn stem_end(path: Seq<char>) -> int {
    let dot = last_index_of(file_name_of(path), '.');
    if dot > 0 {
        name_start(path) + dot
    } else {
        path.len() as int
    }
}

/// The file name without its extension.
pub open spec fn file_stem_of(path: Seq<char>) -> Seq<char> {
    path.subrange(name_start(path), stem_end(path))
}

/// The directory of a path, if the path names one.
pub open spec fn parent_of(path: Seq<char>) -> Option<Seq<char>> {
    if name_start(path) > 1 {
        Some(path.subrange(0, name_start(path) - 1))
    } else {
        None
    }
}

/// The path with another extension in place of its own.
pub open spec fn with_extension_of(path: Seq<char>, ext: Seq<char>) -> Seq<char> {
    path.subrange(0, stem_end(path)) + seq!['.'] + ext
}

/// A name inside a directory.
pub open spec fn joined(dir: Seq<char>, name: Seq<char>) -> Seq<char> {
    dir + seq!['/'] + name
}

/// The path of the temporary file that a save writes before it replaces the
/// file at `path`.
pub open spec fn temp_path_of(path: Seq<char>) -> Seq<char> {
    with_extension_of(path, seq!['t', 'm', 'p'])
}

/// The path of the backup of `path` made at the time `now`, in seconds since
/// the epoch: `<stem>.backup.<now>` in the directory of `path`.
pub open spec fn backup_path_of(path: Seq<char>, now: u64) -> Seq<char> {
    with_extension_of(path, seq!['b', 'a', 'c', 'k', 'u', 'p', '.'] + decimal_text(now as nat))
}

/// What the file name of every backup of `path` starts with.
pub open spec fn backup_prefix_of(path: Seq<char>) -> Seq<char> {
    file_stem_of(path) + seq!['.', 'b', 'a', 'c', 'k', 'u', 'p', '.']
}

/// The path of the hash record of a subject: `<subject>.hash` in the
/// directory of the hash records.
pub open spec fn hash_path_of(hash_dir: Seq<char>, subject: Seq<char>) -> Seq<char> {
    joined(hash_dir, subject + seq!['.', 'h', 'a', 's', 'h'])
}

/// The path of the file of an index: `<name>.json` in the directory of the
/// index files.
pub open spec fn index_path_of(index_dir: Seq<char>, name: Seq<char>) -> Seq<char> {
    joined(index_dir, name + seq!['.', 'j', 's', 'o', 'n'])
}

/// The text without every `.json` at its end.
pub open spec fn without_json_suffix(s: Seq<char>) -> Seq<char>
    decreases s.len(),
{
    if has_suffix(s, seq!['.', 'j', 's', 'o', 'n']) {
        without_json_suffix(s.subrange(0, s.len() - 5))
    } else {
        s
    }
}

/// The name of the index that a file of the index directory holds: the file
/// name without `.json`, if it ends so.
pub open spec fn index_name_of(file_name: Seq<char>) -> Option<Seq<char>> {
    if has_suffix(file_name, seq!['.', 'j', 's', 'o', 'n']) {
        Some(without_json_suffix(file_name))
    } else {
        None
    }
}

/// The position of the last `c` in the text from `from` on, counted from
/// `from`; `None` if there is none.
fn find_last(text: &str, from: usize, c: char) -> (r: Option<usize>)
    requires
        from <= text@.len(),
    ensures
        match r {
            Some(i) => last_index_of(text@.subrange(from as int, text@.len() as int), c) == i
                && from + i < text@.len(),
            None => last_index_of(text@.subrange(from as int, text@.len() as int), c) == -1,
        },
        text@.len() <= usize::MAX,
{
    let n = text.unicode_len();
    let ghost tail = text@.subrange(from as int, n as int);
    let mut end: usize = n;
    proof {
        assert(tail.subrange(0, n - from) == tail);
    }
    while end > from
        invariant
            from <= end <= n,
            n == text@.len(),
            tail == text@.subrange(from as int, n as int),
            last_index_of(tail, c) == last_index_of(tail.subrange(0, end - from), c),
        decreases end,
    {
        let ghost cur = tail.subrange(0, end - from);
        proof {
            assert(cur.drop_last() == tail.subrange(0, end - from - 1));
            assert(cur.last() == text@[end - 1]);
        }
        if text.get_char(end - 1) == c {
            return Some(end - 1 - from);
        }
        end -= 1;
    }
    None
}

fn name_start_at(path: &str) -> (r: usize)
    ensures
        r == name_start(path@),
        r <= path@.len(),
{
    proof {
        assert(path@.subrange(0, path@.len() as int) == path@);
        lemma_last_index_bound(path@, '/');
    }
    match find_last(path, 0, '/') {
        Some(i) => i + 1,
        None => 0,
    }
}

proof fn lemma_last_index_bound(s: Seq<char>, c: char)
    ensures
        -1 <= last_index_of(s, c) < s.len(),
    decreases s.len(),
{
    if s.len() > 0 && s.last() != c {
        lemma_last_index_bound(s.drop_last(), c);
    }
}

fn stem_end_at(path: &str) -> (r: usize)
    ensures
        r == stem_end(path@),
        name_start(path@) <= r <= path@.len(),
{
    let start = name_start_at(path);
    proof {
        lemma_last_index_bound(file_name_of(path@), '.');
    }
    match find_last(path, start, '.') {
        Some(dot) => if dot > 0 {
            start + dot
        } else {
            path.unicode_len()
        },
        None => path.unicode_len(),
    }
}

/// The file name of a path: what stands behind its last `/`.
pub fn file_name(path: &str) -> (r: String)
    ensures
        r@ == file_name_of(path@),
{
    let start = name_start_at(path);
    path.substring_char(start, path.unicode_len()).to_owned()
}

/// The file name of a path without its extension.
pub fn file_stem(path: &str) -> (r: String)
    ensures
        r@ == file_stem_of(path@),
{
    let start = name_start_at(path);
    let end = stem_end_at(path);
    path.substring_char(start, end).to_owned()
}

/// The directory of a path. `None` for a path without a directory.
pub fn parent_dir(path: &str) -> (r: Option<String>)
    ensures
        match r {
            Some(p) => parent_of(path@) == Some(p@),
            None => parent_of(path@) is None,
        },
{
    let start = name_start_at(path);
    if start > 1 {
        Some(path.substring_char(0, start - 1).to_owned())
    } else {
        None
    }
}

/// The path with another extension in place of its own.
pub fn with_extension(path: &str, ext: &str) -> (r: String)
    ensures
        r@ == with_extension_of(path@, ext@),
{
    let end = stem_end_at(path);
    proof {
        reveal_strlit(".");
        assert("."@ =~= seq!['.']);
    }
    concat3(path.substring_char(0, end), ".", ext)
}

/// A name inside a directory.
pub fn join(dir: &str, name: &str) -> (r: String)
    ensures
        r@ == joined(dir@, name@),
{
    proof {
        reveal_strlit("/");
        assert("/"@ =~= seq!['/']);
    }
    concat3(dir, "/", name)
}

/// The path of the temporary file of a save.
pub fn temp_path(path: &str) -> (r: String)
    ensures
        r@ == temp_path_of(path@),
{
    proof {
        reveal_strlit("tmp");
        assert("tmp"@ =~= seq!['t', 'm', 'p']);
    }
    with_extension(path, "tmp")
}

/// The path of the backup of a file made at the time `now`, in seconds since
/// the epoch.
pub fn backup_path(path: &str, now: u64) -> (r: String)
    ensures
        r@ == backup_path_of(path@, now),
{
    proof {
        reveal_strlit("backup.");
        assert("backup."@ =~= seq!['b', 'a', 'c', 'k', 'u', 'p', '.']);
    }
    let ext = concat2("backup.", decimal_string(now).as_str());
    with_extension(path, ext.as_str())
}

/// Whether a file name is that of a backup of the file at `path`.
pub fn is_backup_name(path: &str, file_name: &str) -> (r: bool)
    ensures
        r == has_prefix(file_name@, backup_prefix_of(path@)),
{
    proof {
        reveal_strlit(".backup.");
        assert(".backup."@ =~= seq!['.', 'b', 'a', 'c', 'k', 'u', 'p', '.']);
    }
    let prefix = concat2(file_stem(path).as_str(), ".backup.");
    starts_with(file_name, prefix.as_str())
}

/// The path of the hash record of a subject.
pub fn hash_path(hash_dir: &str, subject: &str) -> (r: String)
    ensures
        r@ == hash_path_of(hash_dir@, subject@),
{
    proof {
        reveal_strlit(".hash");
        assert(".hash"@ =~= seq!['.', 'h', 'a', 's', 'h']);
    }
    join(hash_dir, concat2(subject, ".hash").as_str())
}

/// The path of the file of an index.
pub fn index_path(index_dir: &str, name: &str) -> (r: String)
    ensures
        r@ == index_path_of(index_dir@, name@),
{
    proof {
        reveal_strlit(".json");
        assert(".json"@ =~= seq!['.', 'j', 's', 'o', 'n']);
    }
    join(index_dir, concat2(name, ".json").as_str())
}

/// The name of the index that a file of the index directory holds. `None`
/// for a file that holds no index.
pub fn index_name(file_name: &str) -> (r: Option<String>)
    ensures
        match r {
            Some(n) => index_name_of(file_name@) == Some(n@),
            None => index_name_of(file_name@) is None,
        },
{
    proof {
        reveal_strlit(".json");
        assert(".json"@ =~= seq!['.', 'j', 's', 'o', 'n']);
    }
    if !ends_with(file_name, ".json") {
        return None;
    }
    let mut end: usize = file_name.unicode_len();
    proof {
        assert(file_name@.subrange(0, end as int) == file_name@);
    }
    while ends_with(file_name.substring_char(0, end), ".json")
        invariant
            end <= file_name@.len(),
            ".json"@ == seq!['.', 'j', 's', 'o', 'n'],
            without_json_suffix(file_name@) == without_json_suffix(
                file_name@.subrange(0, end as int),
            ),
        decreases end,
    {
        proof {
            assert(file_name@.subrange(0, end as int).subrange(0, end - 5)
                == file_name@.subrange(0, end - 5));
        }
        end -= 5;
    }
    Some(file_name.substring_char(0, end).to_owned())
}

} // verus!
