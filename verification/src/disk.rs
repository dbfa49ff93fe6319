//! A model of the disk, to say what the steps of a plan come to: files are
//! texts by path, and every operation happens at once or not at all. On
//! this model a save is shown to do what it is for.

use vstd::prelude::*;
use crate::hash_index::BucketMap;
use crate::index_text::{index_text, spec_index_hash};
use crate::layout::{backup_path_of, file_name_of, hash_path_of, index_path_of, temp_path_of};
use crate::persist::{index_save_steps, save_steps, Failure, Op, StepModel};

verus! {

/// The files of a disk: the text of each, by its path.
pub type Disk = Map<Seq<char>, Seq<char>>;

/// A disk after some steps, and whether the steps went through.
pub struct Outcome {
    pub disk: Disk,
    pub ok: bool,
}

/// The disk after an operation; `None` if the operation fails, which it
/// does when the file it is to read or to take away is not there.
pub open spec fn apply_op(disk: Disk, op: Op) -> Option<Disk> {
    match op {
        Op::CreateDirAll(_) => Some(disk),
        Op::Copy(from, to) => if disk.dom().contains(from) {
            Some(disk.insert(to, disk[from]))
        } else {
            None
        },
        Op::Write(path, contents) => Some(disk.insert(path, contents)),
        Op::Rename(from, to) => if disk.dom().contains(from) {
            Some(disk.remove(from).insert(to, disk[from]))
        } else {
            None
        },
        Op::Remove(path) => if disk.dom().contains(path) {
            Some(disk.remove(path))
        } else {
            None
        },
    }
}

/// What comes of carrying out the steps from position `i` on, in order. A
/// step that fails ends the run, after its cleaning up if it has one,
/// unless its failure does not count.
pub open spec fn run_from(disk: Disk, steps: Seq<StepModel>, i: int) -> Outcome
    decreases steps.len() - i,
{
    if i < 0 || i >= steps.len() {
        Outcome { disk, ok: true }
    } else {
        match apply_op(disk, steps[i].op) {
            Some(next) => run_from(next, steps, i + 1),
            None => match steps[i].on_failure {
                Failure::Fail => Outcome { disk, ok: false },
                Failure::CleanUp(op) => Outcome {
                    disk: match apply_op(disk, op) {
                        Some(cleaned) => cleaned,
                        None => disk,
                    },
                    ok: false,
                },
                Failure::Ignore => run_from(disk, steps, i + 1),
            },
        }
    }
}

/// What comes of carrying out a plan.
pub open spec fn run(disk: Disk, steps: Seq<StepModel>) -> Outcome {
    run_from(disk, steps, 0)
}

/// The files that a save touches are different files: the data file, its
/// temporary file, its hash record, and the backup with its hash record if
/// one is made.
pub open spec fn save_paths_apart(path: Seq<char>, hash_dir: Seq<char>, backup_at: Option<u64>)
    -> bool {
    let temp = temp_path_of(path);
    let record = hash_path_of(hash_dir, file_name_of(path));
    &&& temp != path
    &&& record != path
    &&& record != temp
    &&& backup_at matches Some(now) ==> {
        let copy = backup_path_of(path, now);
        let copy_record = hash_path_of(hash_dir, file_name_of(copy));
        &&& copy != path
        &&& copy != temp
        &&& copy != record
        &&& copy_record != path
        &&& copy_record != temp
        &&& copy_record != record
        &&& copy_record != copy
    }
}

/// The data file holds what it held before the save, or the new contents,
/// and nothing else.
pub open spec fn old_or_new(before: Disk, now: Disk, path: Seq<char>, contents: Seq<char>) -> bool {
    if now.dom().contains(path) {
        now[path] == contents || (before.dom().contains(path) && now[path] == before[path])
    } else {
        !before.dom().contains(path)
    }
}

/// What a save comes to. On a disk on which the data file is there if it is
/// to be backed up, the steps of a save go through, and after them the data
/// file holds the new contents, its hash record holds their digest, the
/// temporary file is gone, the backup holds what the data file held, and
/// every other file is as it was.
pub proof fn law_save_replaces_the_file(
    disk: Disk,
    path: Seq<char>,
    hash_dir: Seq<char>,
    backup_at: Option<u64>,
    contents: Seq<char>,
    digest: Seq<char>,
)
    requires
        backup_at is Some ==> disk.dom().contains(path),
        save_paths_apart(path, hash_dir, backup_at),
    ensures
        ({
            let after = run(disk, save_steps(path, hash_dir, backup_at, contents, digest));
            let temp = temp_path_of(path);
            let record = hash_path_of(hash_dir, file_name_of(path));
            &&& after.ok
            &&& after.disk.dom().contains(path) && after.disk[path] == contents
            &&& after.disk.dom().contains(record) && after.disk[record] == digest
            &&& !after.disk.dom().contains(temp)
            &&& backup_at matches Some(now) ==> after.disk.dom().contains(
                backup_path_of(path, now),
            ) && after.disk[backup_path_of(path, now)] == disk[path]
            &&& forall|other: Seq<char>|
                other != path && other != temp && other != record && (backup_at matches Some(now)
                    ==> other != backup_path_of(path, now) && other != hash_path_of(
                    hash_dir,
                    file_name_of(backup_path_of(path, now)),
                )) ==> (after.disk.dom().contains(other) <==> disk.dom().contains(other)) && (
                disk.dom().contains(other) ==> after.disk[other] == disk[other])
        }),
{
    reveal_with_fuel(run_from, 8);
}

/// A save is atomic for the data file: however far the steps of a save have
/// come, the data file holds what it held before or the new contents,
/// never a part of them. Where the steps stop on a failure, it holds what
/// it held before.
pub proof fn law_save_is_atomic(
    disk: Disk,
    path: Seq<char>,
    hash_dir: Seq<char>,
    backup_at: Option<u64>,
    contents: Seq<char>,
    digest: Seq<char>,
    done: int,
)
    requires
        save_paths_apart(path, hash_dir, backup_at),
        0 <= done <= save_steps(path, hash_dir, backup_at, contents, digest).len(),
    ensures
        ({
            let steps = save_steps(path, hash_dir, backup_at, contents, digest);
            let so_far = run(disk, steps.subrange(0, done));
            &&& old_or_new(disk, so_far.disk, path, contents)
            &&& !so_far.ok ==> old_or_new(disk, so_far.disk, path, disk[path])
        }),
{
    reveal_with_fuel(run_from, 8);
    let steps = save_steps(path, hash_dir, backup_at, contents, digest);
    let part = steps.subrange(0, done);
    assert forall|i: int| 0 <= i < done implies part[i] == steps[i] by {}
}

/// What a save of an index comes to: where the index file, its temporary
/// file and its hash record are different files, the steps go through, and
/// after them the index file holds the pretty text of the index, the hash
/// record holds its digest, and the temporary file is gone.
pub proof fn law_index_save_replaces_the_file(
    disk: Disk,
    index_dir: Seq<char>,
    hash_dir: Seq<char>,
    name: Seq<char>,
    buckets: BucketMap,
)
    requires
        temp_path_of(index_path_of(index_dir, name)) != index_path_of(index_dir, name),
        hash_path_of(hash_dir, name) != index_path_of(index_dir, name),
        hash_path_of(hash_dir, name) != temp_path_of(index_path_of(index_dir, name)),
    ensures
        ({
            let after = run(disk, index_save_steps(index_dir, hash_dir, name, buckets));
            let file = index_path_of(index_dir, name);
            let record = hash_path_of(hash_dir, name);
            &&& after.ok
            &&& after.disk.dom().contains(file) && after.disk[file] == index_text(buckets, true)
            &&& after.disk.dom().contains(record) && after.disk[record] == spec_index_hash(buckets)
            &&& !after.disk.dom().contains(temp_path_of(file))
        }),
{
    reveal_with_fuel(run_from, 5);
}

} // verus!
