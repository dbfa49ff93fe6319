//! Persistence, as far as it is a matter of rules: which file operations a
//! save consists of, what a file that was read means for the store, which
//! backup a repair adopts.
//!
//! Nothing here touches a file. A save is handed out as a list of steps for
//! the caller to carry out in order; what the caller found on disk is handed
//! in as plain values.

use vstd::prelude::*;
use crate::buckets::Bucket;
use crate::consistency::{lemma_empty_agrees, lemma_grouped_agrees};
use crate::db::InMemoryDB;
use crate::disk::save_paths_apart;
use crate::digest::{create_data_hash, spec_data_hash, verify_data_integrity};
use crate::hash_index::{grouped, BucketMap, HashIndex};
use crate::index_text::{calculate_index_hash, index_text, spec_index_hash, write_index};
use crate::layout::{
    backup_path,
    backup_path_of,
    backup_prefix_of,
    file_name,
    file_name_of,
    hash_path,
    hash_path_of,
    index_path,
    index_path_of,
    is_backup_name,
    parent_dir,
    parent_of,
    temp_path,
    temp_path_of,
    PersistedState,
};
use crate::text::{blank, has_prefix, is_blank, same_text, trim, trimmed};
use crate::value::{members_view, members_wf, Json, Member, Value};

verus! {

/// One operation on the file system.
#[derive(Debug, PartialEq, Eq)]
pub enum FileOp {
    /// Create a directory and the directories above it, as far as they are
    /// missing.
    CreateDirAll { path: String },
    /// Copy a file.
    Copy { from: String, to: String },
    /// Write a file anew, with the given contents.
    Write { path: String, contents: String },
    /// Move a file to another path, in place of the file that may be there.
    Rename { from: String, to: String },
    /// Delete a file.
    Remove { path: String },
}

/// What is to happen when a step fails.
#[derive(Debug, PartialEq, Eq)]
pub enum OnFailure {
    /// The steps end here, and the failure is the caller's error.
    Fail,
    /// As `Fail`, after the given operation was tried, whatever came of it.
    CleanUp(FileOp),
    /// The failure does not count: the steps go on.
    Ignore,
}

/// One step of a plan.
#[derive(Debug, PartialEq, Eq)]
pub struct Step {
    pub op: FileOp,
    pub on_failure: OnFailure,
}

/// The model of a [`FileOp`].
pub enum Op {
    CreateDirAll(Seq<char>),
    Copy(Seq<char>, Seq<char>),
    Write(Seq<char>, Seq<char>),
    Rename(Seq<char>, Seq<char>),
    Remove(Seq<char>),
}

/// The model of an [`OnFailure`].
pub enum Failure {
    Fail,
    CleanUp(Op),
    Ignore,
}

/// The model of a [`Step`].
pub struct StepModel {
    pub op: Op,
    pub on_failure: Failure,
}

impl View for FileOp {
    type V = Op;

    open spec fn view(&self) -> Op {
        match *self {
            FileOp::CreateDirAll { path } => Op::CreateDirAll(path@),
            FileOp::Copy { from, to } => Op::Copy(from@, to@),
            FileOp::Write { path, contents } => Op::Write(path@, contents@),
            FileOp::Rename { from, to } => Op::Rename(from@, to@),
            FileOp::Remove { path } => Op::Remove(path@),
        }
    }
}

impl View for OnFailure {
    type V = Failure;

    open spec fn view(&self) -> Failure {
        match *self {
            OnFailure::Fail => Failure::Fail,
            OnFailure::CleanUp(op) => Failure::CleanUp(op@),
            OnFailure::Ignore => Failure::Ignore,
        }
    }
}

impl View for Step {
    type V = StepModel;

    open spec fn view(&self) -> StepModel {
        StepModel { op: self.op@, on_failure: self.on_failure@ }
    }
}

/// The models of steps, in order.
pub open spec fn steps_view(s: Seq<Step>) -> Seq<StepModel> {
    Seq::new(s.len(), |i: int| s[i]@)
}

/// A step that must not fail.
pub open spec fn must(op: Op) -> StepModel {
    StepModel { op, on_failure: Failure::Fail }
}

/// A step whose failure does not count.
pub open spec fn may(op: Op) -> StepModel {
    StepModel { op, on_failure: Failure::Ignore }
}

/// The steps that keep a copy of the file at `path` and of its hash record
/// before a save at the time `now` replaces them. The copy of the hash
/// record may fail.
pub open spec fn backup_steps(path: Seq<char>, hash_dir: Seq<char>, now: u64) -> Seq<StepModel> {
    seq![
        must(Op::Copy(path, backup_path_of(path, now))),
        may(
            Op::Copy(
                hash_path_of(hash_dir, file_name_of(path)),
                hash_path_of(hash_dir, file_name_of(backup_path_of(path, now))),
            ),
        ),
    ]
}

/// The steps that put new contents in place of a file without ever leaving
/// half of them there: the contents go to a temporary file, which then takes
/// the place of the file. A temporary file that cannot take the place is
/// deleted.
pub open spec fn replace_steps(path: Seq<char>, contents: Seq<char>) -> Seq<StepModel> {
    seq![
        must(Op::Write(temp_path_of(path), contents)),
        StepModel {
            op: Op::Rename(temp_path_of(path), path),
            on_failure: Failure::CleanUp(Op::Remove(temp_path_of(path))),
        },
    ]
}

/// The steps of a save of the data file: the backup if one is to be made,
/// the directory of the file, the new contents in place of the old, and the
/// hash record of the new contents.
pub open spec fn save_steps(
    path: Seq<char>,
    hash_dir: Seq<char>,
    backup_at: Option<u64>,
    contents: Seq<char>,
    digest: Seq<char>,
) -> Seq<StepModel> {
    (match backup_at {
        Some(now) => backup_steps(path, hash_dir, now),
        None => Seq::empty(),
    }) + (match parent_of(path) {
        Some(dir) => seq![must(Op::CreateDirAll(dir))],
        None => Seq::empty(),
    }) + replace_steps(path, contents) + seq![
        must(Op::Write(hash_path_of(hash_dir, file_name_of(path)), digest)),
    ]
}

/// The steps of a save of an index: the pretty text in place of the index
/// file, and the hash record of the index.
pub open spec fn index_save_steps(
    index_dir: Seq<char>,
    hash_dir: Seq<char>,
    name: Seq<char>,
    buckets: BucketMap,
) -> Seq<StepModel> {
    replace_steps(index_path_of(index_dir, name), index_text(buckets, true)) + seq![
        must(Op::Write(hash_path_of(hash_dir, name), spec_index_hash(buckets))),
    ]
}

/// What was found at the path of a data file.
#[derive(Debug, PartialEq, Eq)]
pub enum FileContent {
    /// No file.
    Missing,
    /// A file that is empty or holds white space only.
    Blank,
    /// A file that holds something other than a JSON object.
    Invalid,
    /// A file that holds a JSON object: its members, in key order.
    Records(Vec<Member>),
}

impl FileContent {
    /// Records, if there are any, are in key order and well-formed.
    pub open spec fn wf(self) -> bool {
        self matches FileContent::Records(m) ==> members_wf(m@)
    }
}

/// Why a file could not be loaded.
#[derive(Clone, Copy, Debug, PartialEq, Eq, Structural)]
pub enum LoadError {
    /// The file does not hold what it has to hold.
    Malformed,
}

/// One backup file, as it was found: its file name, the time of its last
/// change, what it holds, and the hash record kept for it, if there is one.
#[derive(Debug, PartialEq, Eq)]
pub struct BackupCandidate {
    pub name: String,
    /// The time of the last change, in a unit that keeps the order of times.
    pub modified: u64,
    pub content: FileContent,
    pub stored_hash: Option<String>,
}

/// What was found at the path of an index file.
#[derive(Debug, PartialEq, Eq)]
pub enum IndexContent {
    /// No file.
    Missing,
    /// A file that is empty or holds white space only.
    Blank,
    /// A file that holds something other than an index.
    Invalid,
    /// A file that holds an index: its buckets, in any order.
    Buckets(Vec<Bucket>),
}

/// What a file means whose text is `text` and in which a JSON reader found
/// `parsed`: blank if the text is blank, whatever the reader says; else
/// records if the reader found an object; else invalid.
pub fn classify(text: &str, parsed: Option<Value>) -> (r: FileContent)
    requires
        parsed matches Some(v) ==> v.wf(),
    ensures
        r.wf(),
        r == if blank(text@) {
            FileContent::Blank
        } else if let Some(Value::Object(m)) = parsed {
            FileContent::Records(m)
        } else {
            FileContent::Invalid
        },
{
    if is_blank(text) {
        FileContent::Blank
    } else {
        match parsed {
            Some(Value::Object(m)) => FileContent::Records(m),
            _ => FileContent::Invalid,
        }
    }
}

/// The records of a store after it took over what was found at the path of
/// its data file.
pub open spec fn reloaded(before: InMemoryDB, found: FileContent) -> Map<Seq<char>, Json> {
    if before.persisted.data_file is None {
        before@
    } else {
        match found {
            FileContent::Records(m) => members_view(m@),
            FileContent::Blank => Map::empty(),
            _ => before@,
        }
    }
}

/// A backup can be adopted in place of the data file at `path`: its name is
/// that of a backup of the file, it holds records, and its hash record, if
/// it has one, is the digest of these records.
pub open spec fn eligible(path: Seq<char>, c: BackupCandidate) -> bool {
    &&& has_prefix(c.name@, backup_prefix_of(path))
    &&& c.content matches FileContent::Records(m)
    &&& match c.stored_hash {
        Some(h) => trimmed(h@) == spec_data_hash(members_view(m@)),
        None => true,
    }
}

/// The candidate at `i` comes before the one at `j` when the newest is to be
/// tried first: it was changed later, or at the same time and stands later
/// in the list.
pub open spec fn tried_before(cs: Seq<BackupCandidate>, i: int, j: int) -> bool {
    cs[i].modified > cs[j].modified || (cs[i].modified == cs[j].modified && i > j)
}

/// The candidate at `i` is the one to adopt: it can be adopted, and it comes
/// before every other that can.
pub open spec fn is_choice(path: Seq<char>, cs: Seq<BackupCandidate>, i: int) -> bool {
    &&& 0 <= i < cs.len()
    &&& eligible(path, cs[i])
    &&& forall|j: int|
        0 <= j < cs.len() && j != i && eligible(path, #[trigger] cs[j]) ==> tried_before(cs, i, j)
}

/// Whether a backup can be adopted in place of the data file at `path`.
pub fn is_eligible(path: &str, candidate: &BackupCandidate) -> (r: bool)
    requires
        candidate.content.wf(),
    ensures
        r == eligible(path@, *candidate),
{
    if !is_backup_name(path, candidate.name.as_str()) {
        return false;
    }
    match &candidate.content {
        FileContent::Records(m) => match &candidate.stored_hash {
            Some(h) => verify_data_integrity(m, Some(h.as_str())),
            None => true,
        },
        _ => false,
    }
}

/// The backup to adopt in place of the data file at `path`: of those that
/// can be adopted the one that was changed last; of several changed at the
/// same time, the last in the list. `None` if none can be adopted.
pub fn choose_backup(path: &str, candidates: &Vec<BackupCandidate>) -> (r: Option<usize>)
    requires
        forall|i: int| 0 <= i < candidates@.len() ==> (#[trigger] candidates@[i]).content.wf(),
    ensures
        match r {
            Some(i) => is_choice(path@, candidates@, i as int),
            None => forall|j: int|
                0 <= j < candidates@.len() ==> !eligible(path@, #[trigger] candidates@[j]),
        },
{
    let mut best: Option<usize> = None;
    let mut i: usize = 0;
    while i < candidates.len()
        invariant
            i <= candidates.len(),
            forall|k: int| 0 <= k < candidates@.len() ==> (#[trigger] candidates@[k]).content.wf(),
            match best {
                Some(b) => b < i && eligible(path@, candidates@[b as int]) && forall|j: int|
                    0 <= j < i && j != b && eligible(path@, #[trigger] candidates@[j])
                        ==> tried_before(candidates@, b as int, j),
                None => forall|j: int| 0 <= j < i ==> !eligible(path@, #[trigger] candidates@[j]),
            },
        decreases candidates.len() - i,
    {
        if is_eligible(path, &candidates[i]) {
            let better = match best {
                Some(b) => candidates[i].modified >= candidates[b].modified,
                None => true,
            };
            if better {
                best = Some(i);
            }
        }
        i += 1;
    }
    best
}

impl InMemoryDB {
    /// An empty store that is kept in the given data file. Changes are
    /// followed by a save, and a save keeps a copy of the file it replaces.
    pub fn with_data_file(file_path: &str) -> (db: InMemoryDB)
        ensures
            db.wf(),
            db@ == Map::<Seq<char>, Json>::empty(),
            db.persisted.data_file matches Some(p) && p@ == file_path@,
            db.persisted.index_dir@ == "Indefx"@,
            db.persisted.hash_dir@ == "hashes"@,
            db.auto_save,
            db.backup_enabled,
            db.indexes@ == Map::<Seq<char>, BucketMap>::empty(),
    {
        let mut db = InMemoryDB::new();
        db.persisted.data_file = Some(file_path.to_owned());
        db.backup_enabled = true;
        proof {
            lemma_empty_agrees(db@);
        }
        db
    }

    /// An empty store that is kept where the given layout says. Changes are
    /// followed by a save; a save keeps a copy of the file it replaces if the
    /// layout names a data file.
    pub fn with_layout(persisted: PersistedState) -> (db: InMemoryDB)
        ensures
            db.wf(),
            db@ == Map::<Seq<char>, Json>::empty(),
            db.persisted == persisted,
            db.auto_save,
            db.backup_enabled == persisted.data_file is Some,
            db.indexes@ == Map::<Seq<char>, BucketMap>::empty(),
    {
        let mut db = InMemoryDB::new();
        db.backup_enabled = persisted.data_file.is_some();
        db.persisted = persisted;
        proof {
            lemma_empty_agrees(db@);
        }
        db
    }

    /// A store that is kept in the given data file, with the records that
    /// were found there. A file that is missing, blank or invalid gives an
    /// empty store.
    pub fn new_with_persistence(file_path: &str, found: FileContent) -> (db: InMemoryDB)
        requires
            found.wf(),
        ensures
            db.wf(),
            db@ == if let FileContent::Records(m) = found {
                members_view(m@)
            } else {
                Map::<Seq<char>, Json>::empty()
            },
            db.persisted.data_file matches Some(p) && p@ == file_path@,
            db.persisted.index_dir@ == "Indefx"@,
            db.persisted.hash_dir@ == "hashes"@,
            db.auto_save,
            db.backup_enabled,
            db.indexes@ == Map::<Seq<char>, BucketMap>::empty(),
    {
        let mut db = InMemoryDB::with_data_file(file_path);
        match db.reload(found) {
            Ok(()) => {},
            Err(_) => {},
        }
        db
    }

    /// A store that is kept in the file of the given name in the directory
    /// `stpers`, with the records that were found there.
    pub fn new_persistent(file_name: &str, found: FileContent) -> (db: InMemoryDB)
        requires
            found.wf(),
        ensures
            db.wf(),
            db@ == if let FileContent::Records(m) = found {
                members_view(m@)
            } else {
                Map::<Seq<char>, Json>::empty()
            },
            db.persisted.data_file matches Some(p) && p@ == crate::layout::joined(
                "stpers"@,
                file_name@,
            ),
            db.auto_save,
            db.backup_enabled,
            db.indexes@ == Map::<Seq<char>, BucketMap>::empty(),
    {
        let path = crate::layout::join("stpers", file_name);
        InMemoryDB::new_with_persistence(path.as_str(), found)
    }

    /// The records, in key order: what a save writes.
    pub fn snapshot(&self) -> (r: &Vec<Member>)
        requires
            self.wf(),
        ensures
            members_wf(r@),
            members_view(r@) == self@,
            *r == self.storage,
    {
        &self.storage
    }

    /// The steps of a save. `contents` is the text of the records, as it is
    /// to stand in the data file; `file_exists` says whether there is a data
    /// file now; `now` is the time in seconds since the epoch. A store
    /// without a data file has nothing to save.
    pub fn save(&self, contents: &str, file_exists: bool, now: u64) -> (plan: Vec<Step>)
        requires
            self.wf(),
        ensures
            steps_view(plan@) == match self.persisted.data_file {
                Some(path) => save_steps(
                    path@,
                    self.persisted.hash_dir@,
                    if self.backup_enabled && file_exists {
                        Some(now)
                    } else {
                        None
                    },
                    contents@,
                    spec_data_hash(self@),
                ),
                None => Seq::<StepModel>::empty(),
            },
    {
        let mut plan: Vec<Step> = Vec::new();
        match &self.persisted.data_file {
            Some(path) => {
                let path = path.as_str();
                let hash_dir = self.persisted.hash_dir.as_str();
                let name = file_name(path);
                let ghost backup_part = if self.backup_enabled && file_exists {
                    backup_steps(path@, hash_dir@, now)
                } else {
                    Seq::<StepModel>::empty()
                };
                let ghost dir_part = match parent_of(path@) {
                    Some(dir) => seq![must(Op::CreateDirAll(dir))],
                    None => Seq::<StepModel>::empty(),
                };
                if self.backup_enabled && file_exists {
                    let copy = backup_path(path, now);
                    let copy_name = file_name(copy.as_str());
                    plan.push(
                        Step {
                            op: FileOp::Copy { from: path.to_owned(), to: copy },
                            on_failure: OnFailure::Fail,
                        },
                    );
                    plan.push(
                        Step {
                            op: FileOp::Copy {
                                from: hash_path(hash_dir, name.as_str()),
                                to: hash_path(hash_dir, copy_name.as_str()),
                            },
                            on_failure: OnFailure::Ignore,
                        },
                    );
                }
                assert(steps_view(plan@) =~= backup_part);
                match parent_dir(path) {
                    Some(dir) => {
                        plan.push(
                            Step {
                                op: FileOp::CreateDirAll { path: dir },
                                on_failure: OnFailure::Fail,
                            },
                        );
                    },
                    None => {},
                }
                assert(steps_view(plan@) =~= backup_part + dir_part);
                push_replace(&mut plan, path, contents);
                let ghost before_last = steps_view(plan@);
                plan.push(
                    Step {
                        op: FileOp::Write {
                            path: hash_path(hash_dir, name.as_str()),
                            contents: create_data_hash(&self.storage),
                        },
                        on_failure: OnFailure::Fail,
                    },
                );
                assert(steps_view(plan@) =~= before_last + seq![
                    must(Op::Write(hash_path_of(hash_dir@, file_name_of(path@)), spec_data_hash(self@))),
                ]);
            },
            None => {
                assert(steps_view(plan@) =~= Seq::<StepModel>::empty());
            },
        }
        plan
    }

    /// Whether the files that a save touches are different files, so that
    /// the steps of the save do not get into one another's way: the data
    /// file, its temporary file, its hash record, and the backup with its
    /// hash record if one is made. They are, unless the data file is named
    /// like one of the others. A store without a data file touches none.
    pub fn save_is_safe(&self, file_exists: bool, now: u64) -> (r: bool)
        ensures
            r == match self.persisted.data_file {
                Some(path) => save_paths_apart(
                    path@,
                    self.persisted.hash_dir@,
                    if self.backup_enabled && file_exists {
                        Some(now)
                    } else {
                        None
                    },
                ),
                None => true,
            },
    {
        match &self.persisted.data_file {
            Some(path) => {
                let path = path.as_str();
                let hash_dir = self.persisted.hash_dir.as_str();
                let temp = temp_path(path);
                let record = hash_path(hash_dir, file_name(path).as_str());
                if same_text(temp.as_str(), path) || same_text(record.as_str(), path) || same_text(
                    record.as_str(),
                    temp.as_str(),
                ) {
                    return false;
                }
                if self.backup_enabled && file_exists {
                    let copy = backup_path(path, now);
                    let copy_record = hash_path(hash_dir, file_name(copy.as_str()).as_str());
                    !same_text(copy.as_str(), path) && !same_text(copy.as_str(), temp.as_str())
                        && !same_text(copy.as_str(), record.as_str()) && !same_text(
                        copy_record.as_str(),
                        path,
                    ) && !same_text(copy_record.as_str(), temp.as_str()) && !same_text(
                        copy_record.as_str(),
                        record.as_str(),
                    ) && !same_text(copy_record.as_str(), copy.as_str())
                } else {
                    true
                }
            },
            None => true,
        }
    }

    /// Takes over what was found at the path of the data file: the records
    /// of a file that holds some, no records from a blank file. A missing
    /// file changes nothing, and neither does any file when the store has no
    /// data file. An invalid file is an error and changes nothing. After new
    /// records were taken over, every index is built anew from them.
    pub fn reload(&mut self, found: FileContent) -> (r: Result<(), LoadError>)
        requires
            old(self).wf(),
            found.wf(),
        ensures
            final(self).wf(),
            final(self).same_settings(*old(self)),
            final(self).indexes@.dom() == old(self).indexes@.dom(),
            r is Err <==> old(self).persisted.data_file is Some && found is Invalid,
            r matches Err(e) ==> e == LoadError::Malformed,
            final(self)@ == reloaded(*old(self), found),
            old(self).persisted.data_file is None || found is Missing || found is Invalid ==> {
                &&& final(self).storage == old(self).storage
                &&& final(self).indexes == old(self).indexes
            },
            old(self).persisted.data_file is Some && (found is Blank || found is Records) ==> {
                &&& final(self)@ == if let FileContent::Records(m) = found {
                    members_view(m@)
                } else {
                    Map::<Seq<char>, Json>::empty()
                }
                &&& forall|n: Seq<char>| #[trigger]
                    final(self).indexes@.dom().contains(n) ==> final(self).index_is_complete(n)
                        && final(self).indexes@[n] == grouped(
                        final(self).storage@,
                        final(self).storage@.len() as int,
                    )
            },
    {
        if self.persisted.data_file.is_none() {
            return Ok(());
        }
        match found {
            FileContent::Missing => Ok(()),
            FileContent::Invalid => Err(LoadError::Malformed),
            FileContent::Blank => {
                self.adopt(Vec::new());
                assert(self@ =~= Map::<Seq<char>, Json>::empty());
                Ok(())
            },
            FileContent::Records(m) => {
                self.adopt(m);
                Ok(())
            },
        }
    }

    /// Puts the given records in place of those of the store and builds
    /// every index anew from them.
    pub fn adopt(&mut self, records: Vec<Member>)
        requires
            old(self).wf(),
            members_wf(records@),
        ensures
            final(self).wf(),
            final(self).same_settings(*old(self)),
            final(self).storage == records,
            final(self).indexes@.dom() == old(self).indexes@.dom(),
            forall|n: Seq<char>| #[trigger]
                final(self).indexes@.dom().contains(n) ==> final(self).index_is_complete(n)
                    && final(self).indexes@[n] == grouped(records@, records@.len() as int),
    {
        self.storage = records;
        self.indexes.rebuild_all(&self.storage);
        proof {
            let s = self.storage@;
            lemma_grouped_agrees(s, s.len() as int);
            assert(s.subrange(0, s.len() as int) =~= s);
        }
    }

    /// Whether what was found at the path of the data file can be loaded: a
    /// blank file or one that holds records can, a missing or an invalid one
    /// cannot. A store without a data file has nothing to check.
    pub fn validate_file_integrity(&self, found: &FileContent) -> (r: bool)
        ensures
            r == (self.persisted.data_file is None || *found is Blank || *found is Records),
    {
        if self.persisted.data_file.is_none() {
            return true;
        }
        match found {
            FileContent::Blank => true,
            FileContent::Records(_) => true,
            _ => false,
        }
    }

    /// Whether a stored hash record is the digest of the records as they are
    /// in memory now. White space around the stored text does not count.
    /// `None` stands for a record that could not be read: it never matches.
    pub fn verify_data_integrity(&self, stored_hash: Option<&str>) -> (r: bool)
        requires
            self.wf(),
        ensures
            r == match stored_hash {
                Some(stored) => trimmed(stored@) == spec_data_hash(self@),
                None => false,
            },
    {
        verify_data_integrity(&self.storage, stored_hash)
    }

    /// Puts the records of the newest backup that can be adopted in place of
    /// those of the store, or no records if no backup can be adopted, and
    /// builds every index anew. Returns the position of the backup that was
    /// adopted, and whether a save is due: it is, whenever the store has a
    /// data file. A store without a data file stays as it is.
    pub fn repair_file(&mut self, candidates: Vec<BackupCandidate>) -> (r: (Option<usize>, bool))
        requires
            old(self).wf(),
            forall|i: int| 0 <= i < candidates@.len() ==> (#[trigger] candidates@[i]).content.wf(),
        ensures
            final(self).wf(),
            final(self).same_settings(*old(self)),
            final(self).indexes@.dom() == old(self).indexes@.dom(),
            r.1 == old(self).persisted.data_file is Some,
            match old(self).persisted.data_file {
                None => {
                    &&& r.0 is None
                    &&& final(self).storage == old(self).storage
                    &&& final(self).indexes == old(self).indexes
                },
                Some(path) => {
                    &&& match r.0 {
                        Some(i) => is_choice(path@, candidates@, i as int) && final(self)@
                            == members_view(candidates@[i as int].content->Records_0@),
                        None => final(self)@ == Map::<Seq<char>, Json>::empty() && forall|j: int|
                            0 <= j < candidates@.len() ==> !eligible(
                                path@,
                                #[trigger] candidates@[j],
                            ),
                    }
                    &&& forall|n: Seq<char>| #[trigger]
                        final(self).indexes@.dom().contains(n) ==> final(self).index_is_complete(n)
                            && final(self).indexes@[n] == grouped(
                            final(self).storage@,
                            final(self).storage@.len() as int,
                        )
                },
            },
    {
        let choice = match &self.persisted.data_file {
            Some(path) => choose_backup(path.as_str(), &candidates),
            None => {
                return (None, false);
            },
        };
        let mut candidates = candidates;
        match choice {
            Some(i) => {
                let chosen = candidates.swap_remove(i);
                match chosen.content {
                    FileContent::Records(m) => {
                        self.adopt(m);
                    },
                    _ => {},
                }
                (Some(i), true)
            },
            None => {
                self.adopt(Vec::new());
                assert(self@ =~= Map::<Seq<char>, Json>::empty());
                (None, true)
            },
        }
    }

    /// The steps of a save of the named index of the store. No steps if no
    /// index has the name.
    pub fn save_index(&self, index_name: &str) -> (plan: Vec<Step>)
        requires
            self.wf(),
        ensures
            steps_view(plan@) == if self.indexes@.dom().contains(index_name@) {
                index_save_steps(
                    self.persisted.index_dir@,
                    self.persisted.hash_dir@,
                    index_name@,
                    self.indexes@[index_name@],
                )
            } else {
                Seq::<StepModel>::empty()
            },
    {
        self.indexes.save_index(
            self.persisted.index_dir.as_str(),
            self.persisted.hash_dir.as_str(),
            index_name,
        )
    }
}

fn push_replace(plan: &mut Vec<Step>, path: &str, contents: &str)
    ensures
        steps_view(final(plan)@) == steps_view(old(plan)@) + replace_steps(path@, contents@),
{
    plan.push(
        Step {
            op: FileOp::Write { path: temp_path(path), contents: contents.to_owned() },
            on_failure: OnFailure::Fail,
        },
    );
    plan.push(
        Step {
            op: FileOp::Rename { from: temp_path(path), to: path.to_owned() },
            on_failure: OnFailure::CleanUp(FileOp::Remove { path: temp_path(path) }),
        },
    );
    assert(steps_view(plan@) =~= steps_view(old(plan)@) + replace_steps(path@, contents@));
}

impl HashIndex {
    /// The steps that make the directories of the index files and of the
    /// hash records. They may fail.
    pub fn setup(index_dir: &str, hash_dir: &str) -> (plan: Vec<Step>)
        ensures
            steps_view(plan@) == seq![
                may(Op::CreateDirAll(index_dir@)),
                may(Op::CreateDirAll(hash_dir@)),
            ],
    {
        let mut plan: Vec<Step> = Vec::new();
        plan.push(
            Step {
                op: FileOp::CreateDirAll { path: index_dir.to_owned() },
                on_failure: OnFailure::Ignore,
            },
        );
        plan.push(
            Step {
                op: FileOp::CreateDirAll { path: hash_dir.to_owned() },
                on_failure: OnFailure::Ignore,
            },
        );
        assert(steps_view(plan@) =~= seq![
            may(Op::CreateDirAll(index_dir@)),
            may(Op::CreateDirAll(hash_dir@)),
        ]);
        plan
    }

    /// The steps of a save of the named index: its pretty text in place of
    /// its file, and its hash record. No steps if no index has the name.
    pub fn save_index(&self, index_dir: &str, hash_dir: &str, index_name: &str) -> (plan: Vec<
        Step,
    >)
        requires
            self.wf(),
        ensures
            steps_view(plan@) == if self@.dom().contains(index_name@) {
                index_save_steps(index_dir@, hash_dir@, index_name@, self@[index_name@])
            } else {
                Seq::<StepModel>::empty()
            },
    {
        let mut plan: Vec<Step> = Vec::new();
        match self.position(index_name) {
            Some(i) => {
                let buckets = &self.indexes[i].buckets;
                let file = index_path(index_dir, index_name);
                let text = write_index(buckets, true);
                push_replace(&mut plan, file.as_str(), text.as_str());
                plan.push(
                    Step {
                        op: FileOp::Write {
                            path: hash_path(hash_dir, index_name),
                            contents: calculate_index_hash(buckets),
                        },
                        on_failure: OnFailure::Fail,
                    },
                );
                assert(steps_view(plan@) =~= index_save_steps(
                    index_dir@,
                    hash_dir@,
                    index_name@,
                    self@[index_name@],
                ));
            },
            None => {
                assert(steps_view(plan@) =~= Seq::<StepModel>::empty());
            },
        }
        plan
    }

    /// The steps that delete the file and the hash record of an index. They
    /// may fail.
    pub fn drop_index_files(index_dir: &str, hash_dir: &str, index_name: &str) -> (plan: Vec<
        Step,
    >)
        ensures
            steps_view(plan@) == seq![
                may(Op::Remove(index_path_of(index_dir@, index_name@))),
                may(Op::Remove(hash_path_of(hash_dir@, index_name@))),
            ],
    {
        let mut plan: Vec<Step> = Vec::new();
        plan.push(
            Step {
                op: FileOp::Remove { path: index_path(index_dir, index_name) },
                on_failure: OnFailure::Ignore,
            },
        );
        plan.push(
            Step {
                op: FileOp::Remove { path: hash_path(hash_dir, index_name) },
                on_failure: OnFailure::Ignore,
            },
        );
        assert(steps_view(plan@) =~= seq![
            may(Op::Remove(index_path_of(index_dir@, index_name@))),
            may(Op::Remove(hash_path_of(hash_dir@, index_name@))),
        ]);
        plan
    }

    /// The integrity digest of records.
    pub fn create_data_hash(&self, data: &Vec<Member>) -> (r: String)
        requires
            members_wf(data@),
        ensures
            r@ == spec_data_hash(members_view(data@)),
    {
        create_data_hash(data)
    }

    /// Whether a stored integrity record is the digest of the records. White
    /// space around the stored text does not count. `None` stands for a
    /// record that could not be read: it never matches.
    pub fn verify_data_integrity(&self, data: &Vec<Member>, stored_hash: Option<&str>) -> (r: bool)
        requires
            members_wf(data@),
        ensures
            r == match stored_hash {
                Some(stored) => trimmed(stored@) == spec_data_hash(members_view(data@)),
                None => false,
            },
    {
        verify_data_integrity(data, stored_hash)
    }

    /// The step that writes the hash record of a subject.
    pub fn save_data_hash(hash_dir: &str, filename: &str, hash: &str) -> (step: Step)
        ensures
            step@ == must(Op::Write(hash_path_of(hash_dir@, filename@), hash@)),
    {
        Step {
            op: FileOp::Write { path: hash_path(hash_dir, filename), contents: hash.to_owned() },
            on_failure: OnFailure::Fail,
        }
    }

    /// Whether the named index is as its hash record says. `files_exist`
    /// says whether both the index file and the hash record are there;
    /// `stored_hash` is the text of the hash record, `None` if it could not
    /// be read. White space around the stored text does not count.
    pub fn verify_index_integrity(
        &self,
        index_name: &str,
        files_exist: bool,
        stored_hash: Option<&str>,
    ) -> (r: bool)
        requires
            self.wf(),
        ensures
            r == (self@.dom().contains(index_name@) && files_exist && match stored_hash {
                Some(stored) => trimmed(stored@) == spec_index_hash(self@[index_name@]),
                None => false,
            }),
    {
        match self.position(index_name) {
            Some(i) => {
                if !files_exist {
                    return false;
                }
                match stored_hash {
                    Some(stored) => {
                        let current = calculate_index_hash(&self.indexes[i].buckets);
                        same_text(trim(stored), current.as_str())
                    },
                    None => false,
                }
            },
            None => false,
        }
    }
}

} // verus!
