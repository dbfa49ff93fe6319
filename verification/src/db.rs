//! The store: records by key, kept in memory, with the indexes that follow
//! every change of a record.

use vstd::prelude::*;
use crate::buckets::{keys_under, keys_view, map_entries};
use crate::consistency::{
    index_complete, index_sound, lemma_empty_agrees, lemma_grouped_agrees, lemma_sound_key_place,
    lemma_unfile_agrees, lemma_write_agrees,
};
use crate::hash_index::{grouped, refiled, BucketMap, HashIndex};
use crate::hashing::{hash_value, spec_hash_value};
use crate::layout::PersistedState;
use crate::members::{get_member, lemma_members_len, put_member, take_member};
use crate::path::{extract_field_value, json_at};
use crate::scan::{keys_rising, lemma_picked_keys};
use crate::value::{has_key, members_view, members_wf, Json, Member, Value};

verus! {

/// An in-memory store of records, with the settings of its persistence and
/// with its indexes.
#[derive(Debug, PartialEq, Eq)]
pub struct InMemoryDB {
    /// The records, in key order.
    pub storage: Vec<Member>,
    /// Where the store is kept on disk. Without a data file the store lives
    /// in memory only.
    pub persisted: PersistedState,
    /// Whether every change is to be followed by a save.
    pub auto_save: bool,
    /// Whether a save is to keep a copy of the file it replaces.
    pub backup_enabled: bool,
    /// The indexes of the store.
    pub indexes: HashIndex,
}

impl View for InMemoryDB {
    type V = Map<Seq<char>, Json>;

    /// The records: the model of each value under its key.
    open spec fn view(&self) -> Map<Seq<char>, Json> {
        members_view(self.storage@)
    }
}

/// Every index of `indexes` agrees with the records as far as it goes.
pub open spec fn all_sound(indexes: Map<Seq<char>, BucketMap>, store: Map<Seq<char>, Json>) -> bool {
    forall|n: Seq<char>| #[trigger] indexes.dom().contains(n) ==> index_sound(indexes[n], store)
}

impl InMemoryDB {
    /// The records are in key order and well-formed, and what the indexes
    /// hold is true of the records.
    pub open spec fn wf(self) -> bool {
        &&& members_wf(self.storage@)
        &&& self.indexes.wf()
        &&& all_sound(self.indexes@, self@)
    }

    /// The named index is there and has every record of the store.
    pub open spec fn index_is_complete(self, name: Seq<char>) -> bool {
        self.indexes@.dom().contains(name) && index_complete(self.indexes@[name], self@)
    }

    /// A change of the records is to be followed by a save.
    pub open spec fn write_through(self) -> bool {
        self.auto_save && self.persisted.data_file is Some
    }

    /// The settings of two stores are the same.
    pub open spec fn same_settings(self, other: InMemoryDB) -> bool {
        &&& self.persisted == other.persisted
        &&& self.auto_save == other.auto_save
        &&& self.backup_enabled == other.backup_enabled
    }

    /// The hash under which the key of a record stands in the indexes:
    /// that of its value, if the key has a record.
    pub open spec fn filed_under(self, key: Seq<char>) -> Option<u64> {
        if self@.dom().contains(key) {
            Some(spec_hash_value(self@[key]))
        } else {
            None
        }
    }

    /// In every index the key has moved from where it stood before to under
    /// `new_hash`, and nothing else has changed.
    pub open spec fn indexes_follow(
        self,
        before: InMemoryDB,
        key: Seq<char>,
        new_hash: Option<u64>,
    ) -> bool {
        &&& self.indexes@.dom() == before.indexes@.dom()
        &&& forall|n: Seq<char>| #[trigger]
            before.indexes@.dom().contains(n) ==> self.indexes@[n] == refiled(
                before.indexes@[n],
                before.filed_under(key),
                new_hash,
                key,
            )
    }

    /// The indexes that had every record before still have every record.
    pub open spec fn keeps_complete(self, before: InMemoryDB) -> bool {
        &&& self.indexes@.dom() == before.indexes@.dom()
        &&& forall|n: Seq<char>| #[trigger]
            before.index_is_complete(n) ==> self.index_is_complete(n)
    }

    /// An empty store that lives in memory only. Changes are followed by a
    /// save as soon as a data file is named; no copies are kept.
    pub fn new() -> (db: InMemoryDB)
        ensures
            db.wf(),
            db@ == Map::<Seq<char>, Json>::empty(),
            db.persisted.data_file is None,
            db.persisted.index_dir@ == "Indefx"@,
            db.persisted.hash_dir@ == "hashes"@,
            db.auto_save,
            !db.backup_enabled,
            db.indexes@ == Map::<Seq<char>, BucketMap>::empty(),
    {
        let db = InMemoryDB {
            storage: Vec::new(),
            persisted: PersistedState {
                data_file: None,
                index_dir: "Indefx".to_owned(),
                hash_dir: "hashes".to_owned(),
            },
            auto_save: true,
            backup_enabled: false,
            indexes: HashIndex::new(),
        };
        assert(db@ =~= Map::<Seq<char>, Json>::empty());
        db
    }

    /// Sets whether every change is to be followed by a save.
    pub fn set_auto_save(&mut self, enabled: bool)
        ensures
            final(self).auto_save == enabled,
            final(self).storage == old(self).storage,
            final(self).indexes == old(self).indexes,
            final(self).persisted == old(self).persisted,
            final(self).backup_enabled == old(self).backup_enabled,
    {
        self.auto_save = enabled;
    }

    /// Sets whether a save is to keep a copy of the file it replaces.
    pub fn set_backup_enabled(&mut self, enabled: bool)
        ensures
            final(self).backup_enabled == enabled,
            final(self).storage == old(self).storage,
            final(self).indexes == old(self).indexes,
            final(self).persisted == old(self).persisted,
            final(self).auto_save == old(self).auto_save,
    {
        self.backup_enabled = enabled;
    }

    /// Whether a change of the records is to be followed by a save: changes
    /// are written through, and a data file is named.
    pub fn save_due(&self) -> (r: bool)
        ensures
            r == self.write_through(),
    {
        self.auto_save && self.persisted.data_file.is_some()
    }

    /// The structural hash of the value under a key, if the key is there.
    fn hash_of_key(&self, key: &str) -> (r: Option<u64>)
        requires
            self.wf(),
        ensures
            r == if self@.dom().contains(key@) {
                Some(spec_hash_value(self@[key@]))
            } else {
                None
            },
    {
        match get_member(&self.storage, key) {
            Some(v) => Some(hash_value(v)),
            None => None,
        }
    }

    /// Puts a value under a key, in place of the one that was there if there
    /// was one. In every index the key leaves the bucket of the old value
    /// and joins the bucket of the new one. Returns whether a save is due.
    pub fn insert(&mut self, key: &str, value: Value) -> (save: bool)
        requires
            old(self).wf(),
            value.wf(),
        ensures
            final(self).wf(),
            final(self)@ == old(self)@.insert(key@, value@),
            final(self).same_settings(*old(self)),
            final(self).indexes_follow(*old(self), key@, Some(spec_hash_value(value@))),
            final(self).keeps_complete(*old(self)),
            save == old(self).write_through(),
    {
        let old_hash = self.hash_of_key(key);
        let new_hash = hash_value(&value);
        self.indexes.refile_key(old_hash, Some(new_hash), key);
        put_member(&mut self.storage, key.to_owned(), value);
        proof {
            assert forall|n: Seq<char>| #[trigger] self.indexes@.dom().contains(n) implies index_sound(
                self.indexes@[n],
                self@,
            ) by {
                lemma_write_agrees(old(self).indexes@[n], old(self)@, key@, value@);
            }
            assert forall|n: Seq<char>| #[trigger]
                old(self).index_is_complete(n) implies self.index_is_complete(n) by {
                lemma_write_agrees(old(self).indexes@[n], old(self)@, key@, value@);
            }
        }
        self.save_due()
    }

    /// The value under a key, if the key is there.
    pub fn get(&self, key: &str) -> (r: Option<&Value>)
        requires
            self.wf(),
        ensures
            r is Some <==> self@.dom().contains(key@),
            r matches Some(v) ==> v@ == self@[key@] && v.wf(),
    {
        get_member(&self.storage, key)
    }

    /// Takes the record under a key out, and its key out of every index.
    /// Nothing changes if the key is not there. Returns whether a save is
    /// due: it is due either way.
    pub fn delete(&mut self, key: &str) -> (save: bool)
        requires
            old(self).wf(),
        ensures
            final(self).wf(),
            final(self)@ == old(self)@.remove(key@),
            final(self).same_settings(*old(self)),
            final(self).indexes_follow(*old(self), key@, None),
            final(self).keeps_complete(*old(self)),
            save == old(self).write_through(),
    {
        let old_hash = self.hash_of_key(key);
        self.indexes.refile_key(old_hash, None, key);
        take_member(&mut self.storage, key);
        proof {
            if old(self)@.dom().contains(key@) {
                assert forall|n: Seq<char>| #[trigger]
                    self.indexes@.dom().contains(n) implies index_sound(self.indexes@[n], self@) by {
                    lemma_unfile_agrees(old(self).indexes@[n], old(self)@, key@);
                }
                assert forall|n: Seq<char>| #[trigger]
                    old(self).index_is_complete(n) implies self.index_is_complete(n) by {
                    lemma_unfile_agrees(old(self).indexes@[n], old(self)@, key@);
                }
            } else {
                assert(old(self)@.remove(key@) =~= old(self)@);
                assert forall|n: Seq<char>| #[trigger]
                    self.indexes@.dom().contains(n) implies self.indexes@[n] == old(
                    self,
                ).indexes@[n] by {}
            }
        }
        self.save_due()
    }

    /// Puts a value under a key that is there already; does nothing for a
    /// key that is not there. Returns whether the key was there, and whether
    /// a save is due.
    pub fn update(&mut self, key: &str, value: Value) -> (r: (bool, bool))
        requires
            old(self).wf(),
            value.wf(),
        ensures
            final(self).wf(),
            r.0 == old(self)@.dom().contains(key@),
            final(self)@ == if r.0 {
                old(self)@.insert(key@, value@)
            } else {
                old(self)@
            },
            !r.0 ==> final(self).indexes@ == old(self).indexes@,
            r.0 ==> final(self).indexes_follow(*old(self), key@, Some(spec_hash_value(value@))),
            final(self).same_settings(*old(self)),
            final(self).keeps_complete(*old(self)),
            r.1 == (r.0 && old(self).write_through()),
    {
        if self.contains_key(key) {
            let save = self.insert(key, value);
            (true, save)
        } else {
            (false, false)
        }
    }

    /// Whether a key is there.
    pub fn contains_key(&self, key: &str) -> (r: bool)
        requires
            self.wf(),
        ensures
            r == self@.dom().contains(key@),
    {
        get_member(&self.storage, key).is_some()
    }

    /// All keys, each once, in key order.
    pub fn keys(&self) -> (r: Vec<String>)
        requires
            self.wf(),
        ensures
            r@.len() == self@.dom().len(),
            keys_view(r@).no_duplicates(),
            forall|k: Seq<char>| keys_view(r@).contains(k) <==> self@.dom().contains(k),
            keys_rising(keys_view(r@)),
    {
        let mut out: Vec<String> = Vec::new();
        let mut i: usize = 0;
        while i < self.storage.len()
            invariant
                i <= self.storage.len(),
                out@.len() == i,
                forall|j: int| 0 <= j < i ==> (#[trigger] out@[j])@ == self.storage@[j].key@,
            decreases self.storage.len() - i,
        {
            out.push(self.storage[i].key.clone());
            i += 1;
        }
        proof {
            let names = keys_view(out@);
            let s = self.storage@;
            lemma_members_len(s);
            assert forall|k: Seq<char>| names.contains(k) <==> has_key(s, k) by {
                if names.contains(k) {
                    let j = choose|j: int| 0 <= j < names.len() && names[j] == k;
                    assert(s[j].key@ == k);
                }
                if has_key(s, k) {
                    let j = choose|j: int| 0 <= j < s.len() && (#[trigger] s[j]).key@ == k;
                    assert(names[j] == k);
                }
            }
            assert forall|i: int, j: int| 0 <= i < j < names.len() implies crate::keys::key_lt(
                #[trigger] names[i],
                #[trigger] names[j],
            ) by {
                assert(crate::keys::key_lt(s[i].key@, s[j].key@));
            }
            assert forall|i: int, j: int| 0 <= i < names.len() && 0 <= j < names.len() && i
                != j implies names[i] != names[j] by {
                if s[i].key@ == s[j].key@ {
                    crate::value::lemma_sorted_keys_distinct(s, i, j);
                }
            }
        }
        out
    }

    /// The number of records.
    pub fn len(&self) -> (r: usize)
        requires
            self.wf(),
        ensures
            r == self@.dom().len(),
    {
        proof {
            lemma_members_len(self.storage@);
        }
        self.storage.len()
    }

    /// Whether there is no record.
    pub fn is_empty(&self) -> (r: bool)
        requires
            self.wf(),
        ensures
            r == (self@ == Map::<Seq<char>, Json>::empty()),
    {
        proof {
            lemma_members_len(self.storage@);
            if self.storage@.len() == 0 {
                assert(self@ =~= Map::<Seq<char>, Json>::empty());
            }
        }
        self.storage.len() == 0
    }

    /// Takes every record out and empties every index. Returns whether a
    /// save is due.
    pub fn clear(&mut self) -> (save: bool)
        requires
            old(self).wf(),
        ensures
            final(self).wf(),
            final(self)@ == Map::<Seq<char>, Json>::empty(),
            final(self).same_settings(*old(self)),
            final(self).indexes@.dom() == old(self).indexes@.dom(),
            forall|n: Seq<char>| #[trigger]
                final(self).indexes@.dom().contains(n) ==> final(self).indexes@[n] == Map::<
                    u64,
                    Seq<Seq<char>>,
                >::empty() && final(self).index_is_complete(n),
            save == old(self).write_through(),
    {
        self.storage = Vec::new();
        self.indexes.clear_all();
        proof {
            assert(self@ =~= Map::<Seq<char>, Json>::empty());
            assert forall|n: Seq<char>| #[trigger] self.indexes@.dom().contains(n) implies index_sound(
                self.indexes@[n],
                self@,
            ) && self.index_is_complete(n) by {
                lemma_empty_agrees(self@);
            }
        }
        self.save_due()
    }

    /// Registers an empty index under a name, in place of the one that had
    /// the name if one had. The new index has the records that are written
    /// from now on; it has every record only if the store is empty.
    pub fn create_index(&mut self, index_name: &str)
        requires
            old(self).wf(),
        ensures
            final(self).wf(),
            final(self)@ == old(self)@,
            final(self).same_settings(*old(self)),
            final(self).indexes@ == old(self).indexes@.insert(
                index_name@,
                Map::<u64, Seq<Seq<char>>>::empty(),
            ),
            old(self)@ == Map::<Seq<char>, Json>::empty() ==> final(self).index_is_complete(
                index_name@,
            ),
    {
        self.indexes.create_index(index_name);
        proof {
            lemma_empty_agrees(self@);
            assert(Map::<Seq<char>, Json>::empty().dom() =~= Set::<Seq<char>>::empty());
        }
    }

    /// Forgets the index of a name. Returns whether there was one.
    pub fn drop_index(&mut self, index_name: &str) -> (was_there: bool)
        requires
            old(self).wf(),
        ensures
            final(self).wf(),
            final(self)@ == old(self)@,
            final(self).same_settings(*old(self)),
            final(self).indexes@ == old(self).indexes@.remove(index_name@),
            was_there == old(self).indexes@.dom().contains(index_name@),
    {
        self.indexes.drop_index(index_name)
    }

    /// Empties the named index and files every record anew. After that the
    /// index has every record. Nothing happens if no index has the name.
    /// Returns whether one has.
    pub fn rebuild_index(&mut self, index_name: &str) -> (found: bool)
        requires
            old(self).wf(),
        ensures
            final(self).wf(),
            final(self)@ == old(self)@,
            final(self).same_settings(*old(self)),
            found == old(self).indexes@.dom().contains(index_name@),
            found ==> final(self).indexes@ == old(self).indexes@.insert(
                index_name@,
                grouped(old(self).storage@, old(self).storage@.len() as int),
            ) && final(self).index_is_complete(index_name@),
            !found ==> final(self).indexes@ == old(self).indexes@,
            final(self).storage == old(self).storage,
    {
        let found = self.indexes.rebuild_index(index_name, &self.storage);
        proof {
            let s = self.storage@;
            lemma_grouped_agrees(s, s.len() as int);
            assert(s.subrange(0, s.len() as int) =~= s);
        }
        found
    }

    /// The keys that the named index holds under the hash of a value: keys
    /// of records whose value has that hash, none twice. If the index has
    /// every record, these are all such keys. None if no index has the name.
    pub fn find_by_value(&self, index_name: &str, value: &Value) -> (r: Vec<String>)
        requires
            self.wf(),
            value.wf(),
        ensures
            keys_view(r@) == if self.indexes@.dom().contains(index_name@) {
                keys_under(self.indexes@[index_name@], spec_hash_value(value@))
            } else {
                Seq::<Seq<char>>::empty()
            },
            keys_view(r@).no_duplicates(),
            forall|k: Seq<char>|
                keys_view(r@).contains(k) ==> self@.dom().contains(k) && spec_hash_value(self@[k])
                    == spec_hash_value(value@),
            self.index_is_complete(index_name@) ==> forall|k: Seq<char>|
                keys_view(r@).contains(k) <==> self@.dom().contains(k) && spec_hash_value(self@[k])
                    == spec_hash_value(value@),
    {
        let r = self.indexes.find_by_value(index_name, value);
        proof {
            lemma_lookup_agrees(self.indexes@, self@, index_name@, spec_hash_value(value@));
        }
        r
    }

    /// The keys that the named index holds under a hash: keys of records
    /// whose value has that hash, none twice. If the index has every record,
    /// these are all such keys. None if no index has the name.
    pub fn find_by_hash(&self, index_name: &str, hash: u64) -> (r: Vec<String>)
        requires
            self.wf(),
        ensures
            keys_view(r@) == if self.indexes@.dom().contains(index_name@) {
                keys_under(self.indexes@[index_name@], hash)
            } else {
                Seq::<Seq<char>>::empty()
            },
            keys_view(r@).no_duplicates(),
            forall|k: Seq<char>|
                keys_view(r@).contains(k) ==> self@.dom().contains(k) && spec_hash_value(self@[k])
                    == hash,
            self.index_is_complete(index_name@) ==> forall|k: Seq<char>|
                keys_view(r@).contains(k) <==> self@.dom().contains(k) && spec_hash_value(self@[k])
                    == hash,
    {
        let r = self.indexes.find_by_hash(index_name, hash);
        proof {
            lemma_lookup_agrees(self.indexes@, self@, index_name@, hash);
        }
        r
    }

    /// The keys of the records in which the value at a dotted path has the
    /// structural hash of `value`, in key order. Every record is looked at;
    /// the index name is taken and not used.
    pub fn find_by_field(&self, index_name: &str, field_path: &str, value: &Value) -> (r: Vec<
        String,
    >)
        requires
            self.wf(),
            value.wf(),
        ensures
            keys_view(r@).no_duplicates(),
            forall|k: Seq<char>|
                keys_view(r@).contains(k) <==> self@.dom().contains(k) && field_matches(
                    self@[k],
                    field_path@,
                    spec_hash_value(value@),
                ),
            keys_rising(keys_view(r@)),
    {
        let wanted = hash_value(value);
        let mut out: Vec<String> = Vec::new();
        let mut picked: Ghost<Seq<int>> = Ghost(Seq::empty());
        let mut i: usize = 0;
        while i < self.storage.len()
            invariant
                i <= self.storage.len(),
                self.wf(),
                wanted == spec_hash_value(value@),
                out@.len() == picked@.len(),
                forall|j: int|
                    0 <= j < picked@.len() ==> 0 <= #[trigger] picked@[j] < i && out@[j]@
                        == self.storage@[picked@[j]].key@ && field_matches(
                        self.storage@[picked@[j]].value@,
                        field_path@,
                        wanted,
                    ),
                forall|a: int, b: int| 0 <= a < b < picked@.len() ==> picked@[a] < picked@[b],
                forall|p: int|
                    0 <= p < i && field_matches(
                        (#[trigger] self.storage@[p]).value@,
                        field_path@,
                        wanted,
                    ) ==> picked@.contains(p),
            decreases self.storage.len() - i,
        {
            let hit = match extract_field_value(&self.storage[i].value, field_path) {
                Some(field) => hash_value(field) == wanted,
                None => false,
            };
            if hit {
                out.push(self.storage[i].key.clone());
                proof {
                    let before = picked@;
                    picked@ = before.push(i as int);
                    assert forall|p: int|
                        0 <= p < i + 1 && field_matches(
                            (#[trigger] self.storage@[p]).value@,
                            field_path@,
                            wanted,
                        ) implies picked@.contains(p) by {
                        if p < i {
                            assert(before.contains(p));
                            let j = choose|j: int| 0 <= j < before.len() && before[j] == p;
                            assert(picked@[j] == p);
                        } else {
                            assert(picked@[before.len() as int] == p);
                        }
                    }
                }
            }
            i += 1;
        }
        proof {
            lemma_picked_keys(
                self.storage@,
                out@,
                picked@,
                |j: Json| field_matches(j, field_path@, wanted),
            );
        }
        out
    }

    /// Whether an index has the name.
    pub fn index_exists(&self, index_name: &str) -> (r: bool)
        requires
            self.wf(),
        ensures
            r == self.indexes@.dom().contains(index_name@),
    {
        self.indexes.index_exists(index_name)
    }

    /// The number of buckets of the named index and the number of keys in
    /// them; the second number stops at `usize::MAX`. `None` if no index has
    /// the name.
    pub fn get_index_stats(&self, index_name: &str) -> (r: Option<(usize, usize)>)
        requires
            self.wf(),
        ensures
            r is Some <==> self.indexes@.dom().contains(index_name@),
            r matches Some((unique_hashes, total_entries)) ==> {
                &&& unique_hashes == self.indexes@[index_name@].dom().len()
                &&& total_entries == if map_entries(self.indexes@[index_name@]) <= usize::MAX {
                    map_entries(self.indexes@[index_name@])
                } else {
                    usize::MAX as nat
                }
            },
    {
        self.indexes.get_index_stats(index_name)
    }

    /// The names of the indexes, in the order in which they were created.
    pub fn list_indexes(&self) -> (r: Vec<String>)
        requires
            self.wf(),
        ensures
            keys_view(r@).no_duplicates(),
            forall|n: Seq<char>| keys_view(r@).contains(n) <==> self.indexes@.dom().contains(n),
    {
        self.indexes.list_indexes()
    }
}

/// The value at a dotted path of `j` is there and has the hash `h`.
pub open spec fn field_matches(j: Json, path: Seq<char>, h: u64) -> bool {
    match json_at(j, path) {
        Some(field) => spec_hash_value(field) == h,
        None => false,
    }
}

/// What a sound index holds under a hash: keys of records with that hash,
/// none twice; and all of them, if the index has every record.
pub proof fn lemma_lookup_agrees(
    indexes: Map<Seq<char>, BucketMap>,
    store: Map<Seq<char>, Json>,
    name: Seq<char>,
    h: u64,
)
    requires
        all_sound(indexes, store),
    ensures
        ({
            let keys = if indexes.dom().contains(name) {
                keys_under(indexes[name], h)
            } else {
                Seq::<Seq<char>>::empty()
            };
            &&& keys.no_duplicates()
            &&& forall|k: Seq<char>|
                keys.contains(k) ==> store.dom().contains(k) && spec_hash_value(store[k]) == h
            &&& indexes.dom().contains(name) && index_complete(indexes[name], store) ==> forall|
                k: Seq<char>,
            |
                keys.contains(k) <==> store.dom().contains(k) && spec_hash_value(store[k]) == h
        }),
{
    if indexes.dom().contains(name) {
        let b = indexes[name];
        let keys = keys_under(b, h);
        assert(index_sound(b, store));
        if b.dom().contains(h) {
            assert(crate::consistency::bucket_sound(b[h], h, store));
        }
        assert forall|k: Seq<char>| keys.contains(k) implies store.dom().contains(k)
            && spec_hash_value(store[k]) == h by {
            lemma_sound_key_place(b, store, h, k);
        }
        if index_complete(b, store) {
            assert forall|k: Seq<char>|
                store.dom().contains(k) && spec_hash_value(store[k]) == h implies keys.contains(
                k,
            ) by {}
        }
    }
}

} // verus!
