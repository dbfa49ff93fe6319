//! What holds of the store as a whole.

use vstd::prelude::*;
use crate::buckets::keys_under;
use crate::consistency::{
    index_complete, index_sound, lemma_grouped_agrees, lemma_unfile_agrees, lemma_write_agrees,
};
use crate::db::{lemma_lookup_agrees, InMemoryDB};
use crate::digest::spec_data_hash;
use crate::disk::{law_save_replaces_the_file, run, save_paths_apart, Disk};
use crate::layout::{file_name_of, hash_path_of};
use crate::persist::save_steps;
use crate::hash_index::{grouped, refiled, BucketMap};
use crate::hashing::spec_hash_value;
use crate::persist::{is_choice, reloaded, tried_before, BackupCandidate, FileContent};
use crate::value::{members_sorted, members_view, Json, Member};

verus! {

/// Index consistency. In a well-formed store, an index that has every
/// record holds under the hash of a value exactly the keys of the records
/// whose value has that hash, each once.
///
/// An index has every record if it was created while the store was empty,
/// or was rebuilt, or the store was reloaded, and from then on. An index
/// that was created over records that were there before does not have them
/// until it is rebuilt; of such an index only the half from left to right
/// holds.
pub proof fn law_index_consistency(db: InMemoryDB, index_name: Seq<char>, value: Json)
    requires
        db.wf(),
        db.index_is_complete(index_name),
    ensures
        keys_under(db.indexes@[index_name], spec_hash_value(value)).no_duplicates(),
        forall|k: Seq<char>|
            keys_under(db.indexes@[index_name], spec_hash_value(value)).contains(k)
                <==> db@.dom().contains(k) && spec_hash_value(db@[k]) == spec_hash_value(value),
{
    lemma_lookup_agrees(db.indexes@, db@, index_name, spec_hash_value(value));
}

/// What every index holds is true of the records, whether or not the index
/// has every record: a key that stands under a hash is the key of a record
/// whose value has that hash.
pub proof fn law_index_soundness(db: InMemoryDB, index_name: Seq<char>, hash: u64, key: Seq<char>)
    requires
        db.wf(),
        db.indexes@.dom().contains(index_name),
        keys_under(db.indexes@[index_name], hash).contains(key),
    ensures
        db@.dom().contains(key),
        spec_hash_value(db@[key]) == hash,
{
    lemma_lookup_agrees(db.indexes@, db@, index_name, hash);
}

/// Writing a record keeps an index in step: after the key has left the
/// bucket of the old value and joined the bucket of the new one, the index
/// is true of the new records, and it has every record if it had before.
pub proof fn law_write_keeps_index(
    index: BucketMap,
    records: Map<Seq<char>, Json>,
    key: Seq<char>,
    value: Json,
)
    requires
        index_sound(index, records),
    ensures
        index_sound(
            refiled(
                index,
                if records.dom().contains(key) {
                    Some(spec_hash_value(records[key]))
                } else {
                    None
                },
                Some(spec_hash_value(value)),
                key,
            ),
            records.insert(key, value),
        ),
        index_complete(index, records) ==> index_complete(
            refiled(
                index,
                if records.dom().contains(key) {
                    Some(spec_hash_value(records[key]))
                } else {
                    None
                },
                Some(spec_hash_value(value)),
                key,
            ),
            records.insert(key, value),
        ),
{
    lemma_write_agrees(index, records, key, value);
}

/// Deleting a record keeps an index in step.
pub proof fn law_delete_keeps_index(index: BucketMap, records: Map<Seq<char>, Json>, key: Seq<char>)
    requires
        index_sound(index, records),
        records.dom().contains(key),
    ensures
        index_sound(
            refiled(index, Some(spec_hash_value(records[key])), None, key),
            records.remove(key),
        ),
        index_complete(index, records) ==> index_complete(
            refiled(index, Some(spec_hash_value(records[key])), None, key),
            records.remove(key),
        ),
{
    lemma_unfile_agrees(index, records, key);
}

/// An index that is rebuilt is true of the records and has every one.
pub proof fn law_rebuild_is_complete(records: Seq<Member>)
    requires
        members_sorted(records),
    ensures
        index_sound(grouped(records, records.len() as int), members_view(records)),
        index_complete(grouped(records, records.len() as int), members_view(records)),
{
    lemma_grouped_agrees(records, records.len() as int);
    assert(records.subrange(0, records.len() as int) =~= records);
}

/// Round trip, as far as the store goes: a store that takes over the very
/// records that its save hands out has the records that it had. What lies
/// between, the text of the data file and its way to disk and back, is the
/// caller's.
pub proof fn law_reload_of_snapshot(db: InMemoryDB)
    requires
        db.wf(),
    ensures
        reloaded(db, FileContent::Records(db.storage)) == db@,
{
}

/// Round trip over the disk. Let a store be saved to a disk on which the
/// files of the save are different files, and let the caller's reader make
/// of the text that was written the records that it was written for. Then
/// the save goes through, a reload of what the reader finds in the data file
/// leaves the store with the records that it had, and the hash record on
/// disk is the digest of these records.
pub proof fn law_save_then_reload(
    db: InMemoryDB,
    disk: Disk,
    contents: Seq<char>,
    file_exists: bool,
    now: u64,
    reader: spec_fn(Seq<char>) -> FileContent,
)
    requires
        db.wf(),
        db.persisted.data_file is Some,
        file_exists ==> disk.dom().contains(db.persisted.data_file->0@),
        save_paths_apart(
            db.persisted.data_file->0@,
            db.persisted.hash_dir@,
            if db.backup_enabled && file_exists {
                Some(now)
            } else {
                None
            },
        ),
        reader(contents) == FileContent::Records(db.storage),
    ensures
        ({
            let path = db.persisted.data_file->0@;
            let after = run(
                disk,
                save_steps(
                    path,
                    db.persisted.hash_dir@,
                    if db.backup_enabled && file_exists {
                        Some(now)
                    } else {
                        None
                    },
                    contents,
                    spec_data_hash(db@),
                ),
            );
            &&& after.ok
            &&& reloaded(db, reader(after.disk[path])) == db@
            &&& after.disk[hash_path_of(db.persisted.hash_dir@, file_name_of(path))]
                == spec_data_hash(db@)
        }),
{
    law_save_replaces_the_file(
        disk,
        db.persisted.data_file->0@,
        db.persisted.hash_dir@,
        if db.backup_enabled && file_exists {
            Some(now)
        } else {
            None
        },
        contents,
        spec_data_hash(db@),
    );
}

/// The structural hash does not depend on the order in which the members of
/// an object were put in.
pub proof fn law_hash_ignores_member_order(
    members: Map<Seq<char>, Json>,
    first_key: Seq<char>,
    first: Json,
    second_key: Seq<char>,
    second: Json,
)
    requires
        first_key != second_key,
    ensures
        spec_hash_value(Json::Object(members.insert(first_key, first).insert(second_key, second)))
            == spec_hash_value(
            Json::Object(members.insert(second_key, second).insert(first_key, first)),
        ),
{
    assert(members.insert(first_key, first).insert(second_key, second) =~= members.insert(
        second_key,
        second,
    ).insert(first_key, first));
}

/// Only one backup can be the one that a repair adopts.
pub proof fn law_repair_choice_is_unique(
    path: Seq<char>,
    candidates: Seq<BackupCandidate>,
    i: int,
    j: int,
)
    requires
        is_choice(path, candidates, i),
        is_choice(path, candidates, j),
    ensures
        i == j,
{
    if i != j {
        assert(tried_before(candidates, i, j));
        assert(tried_before(candidates, j, i));
    }
}

} // verus!
