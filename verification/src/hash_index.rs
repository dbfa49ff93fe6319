//! Named secondary indexes: each maps the structural hash of a value to the
//! keys that were filed under it.

use vstd::prelude::*;
use crate::buckets::{
    Bucket,
    buckets_view,
    buckets_wf,
    entries_total,
    file_key,
    filed,
    find_bucket,
    has_hash,
    keys_under,
    keys_view,
    map_entries,
    unfile_key,
    unfiled,
    lemma_buckets_len,
    lemma_buckets_lookup,
    lemma_entries_total,
};
use crate::hashing::{hash_value, spec_hash_value};
use crate::keys::{compare_keys, KeyOrder};
use crate::value::{Member, Value, members_wf};

verus! {

/// One index: its name and its buckets.
#[derive(Debug, PartialEq, Eq)]
pub struct Index {
    pub name: String,
    pub buckets: Vec<Bucket>,
}

/// A set of named indexes.
#[derive(Debug, PartialEq, Eq)]
pub struct HashIndex {
    pub indexes: Vec<Index>,
}

/// What one index holds: for each hash with a bucket, the keys of the bucket.
pub type BucketMap = Map<u64, Seq<Seq<char>>>;

/// Some index of `s` has the name `n`.
pub open spec fn has_index(s: Seq<Index>, n: Seq<char>) -> bool {
    exists|i: int| 0 <= i < s.len() && (#[trigger] s[i]).name@ == n
}

/// No two indexes share a name.
pub open spec fn names_distinct(s: Seq<Index>) -> bool {
    forall|i: int, j: int|
        0 <= i < s.len() && 0 <= j < s.len() && i != j ==> (#[trigger] s[i]).name@ != (
        #[trigger] s[j]).name@
}

/// The map from each index name to what that index holds.
pub open spec fn indexes_view(s: Seq<Index>) -> Map<Seq<char>, BucketMap> {
    Map::new(
        |n: Seq<char>| has_index(s, n),
        |n: Seq<char>|
            buckets_view(
                s[choose|i: int| 0 <= i < s.len() && (#[trigger] s[i]).name@ == n].buckets@,
            ),
    )
}

pub open spec fn indexes_wf(s: Seq<Index>) -> bool {
    &&& names_distinct(s)
    &&& forall|i: int| 0 <= i < s.len() ==> buckets_wf((#[trigger] s[i]).buckets@)
}

/// The buckets that come of filing the first `n` records, each key under the
/// hash of its value, in the order of the records.
pub open spec fn grouped(records: Seq<Member>, n: int) -> BucketMap
    decreases n,
{
    if n <= 0 || n > records.len() {
        Map::empty()
    } else {
        filed(
            grouped(records, n - 1),
            spec_hash_value(records[n - 1].value@),
            records[n - 1].key@,
        )
    }
}

/// The index after a key moved from under one hash to under another. `None`
/// for the old hash: the key had no record; for the new one: it has none
/// now.
pub open spec fn refiled(b: BucketMap, old_hash: Option<u64>, new_hash: Option<u64>, k: Seq<char>)
    -> BucketMap {
    let u = match old_hash {
        Some(h) => unfiled(b, h, k),
        None => b,
    };
    match new_hash {
        Some(h) => filed(u, h, k),
        None => u,
    }
}

/// With distinct names, the map holds under the name of the index at `i`
/// what that index holds.
pub proof fn lemma_indexes_lookup(s: Seq<Index>, i: int)
    requires
        names_distinct(s),
        0 <= i < s.len(),
    ensures
        indexes_view(s).dom().contains(s[i].name@),
        indexes_view(s)[s[i].name@] == buckets_view(s[i].buckets@),
{
    assert(has_index(s, s[i].name@));
}

/// Putting an index in place of one with the same name replaces what the map
/// holds under that name.
pub proof fn lemma_index_update(s: Seq<Index>, p: int, x: Index)
    requires
        indexes_wf(s),
        0 <= p < s.len(),
        s[p].name@ == x.name@,
        buckets_wf(x.buckets@),
    ensures
        indexes_wf(s.update(p, x)),
        indexes_view(s.update(p, x)) == indexes_view(s).insert(x.name@, buckets_view(x.buckets@)),
{
    let t = s.update(p, x);
    assert forall|i: int, j: int| 0 <= i < t.len() && 0 <= j < t.len() && i != j implies (
    #[trigger] t[i]).name@ != (#[trigger] t[j]).name@ by {
        assert(t[i].name@ == s[i].name@ && t[j].name@ == s[j].name@);
    }
    assert forall|i: int| 0 <= i < t.len() implies buckets_wf((#[trigger] t[i]).buckets@) by {
        if i != p {
            assert(t[i] == s[i]);
        }
    }
    let a = indexes_view(t);
    let b = indexes_view(s).insert(x.name@, buckets_view(x.buckets@));
    assert forall|n: Seq<char>| a.dom().contains(n) <==> b.dom().contains(n) by {
        if has_index(t, n) {
            let i = choose|i: int| 0 <= i < t.len() && (#[trigger] t[i]).name@ == n;
            assert(s[i].name@ == n);
        }
        if b.dom().contains(n) {
            if n == x.name@ {
                assert(t[p].name@ == n);
            } else {
                let i = choose|i: int| 0 <= i < s.len() && (#[trigger] s[i]).name@ == n;
                assert(t[i].name@ == n);
            }
        }
    }
    assert forall|n: Seq<char>| a.dom().contains(n) implies a[n] == b[n] by {
        let i = choose|i: int| 0 <= i < t.len() && (#[trigger] t[i]).name@ == n;
        lemma_indexes_lookup(t, i);
        if i != p {
            lemma_indexes_lookup(s, i);
            assert(s[i].name@ != s[p].name@);
        }
    }
    assert(a =~= b);
}

/// Adding an index under a new name adds that name to the map.
pub proof fn lemma_index_push(s: Seq<Index>, x: Index)
    requires
        indexes_wf(s),
        !has_index(s, x.name@),
        buckets_wf(x.buckets@),
    ensures
        indexes_wf(s.push(x)),
        indexes_view(s.push(x)) == indexes_view(s).insert(x.name@, buckets_view(x.buckets@)),
{
    let t = s.push(x);
    assert forall|i: int, j: int| 0 <= i < t.len() && 0 <= j < t.len() && i != j implies (
    #[trigger] t[i]).name@ != (#[trigger] t[j]).name@ by {
        if i < s.len() {
            assert(t[i] == s[i]);
        }
        if j < s.len() {
            assert(t[j] == s[j]);
        }
    }
    assert forall|i: int| 0 <= i < t.len() implies buckets_wf((#[trigger] t[i]).buckets@) by {
        if i < s.len() {
            assert(t[i] == s[i]);
        }
    }
    let a = indexes_view(t);
    let b = indexes_view(s).insert(x.name@, buckets_view(x.buckets@));
    assert forall|n: Seq<char>| a.dom().contains(n) <==> b.dom().contains(n) by {
        if has_index(t, n) {
            let i = choose|i: int| 0 <= i < t.len() && (#[trigger] t[i]).name@ == n;
            if i < s.len() {
                assert(s[i].name@ == n);
            }
        }
        if b.dom().contains(n) {
            if n == x.name@ {
                assert(t[s.len() as int].name@ == n);
            } else {
                let i = choose|i: int| 0 <= i < s.len() && (#[trigger] s[i]).name@ == n;
                assert(t[i].name@ == n);
            }
        }
    }
    assert forall|n: Seq<char>| a.dom().contains(n) implies a[n] == b[n] by {
        let i = choose|i: int| 0 <= i < t.len() && (#[trigger] t[i]).name@ == n;
        lemma_indexes_lookup(t, i);
        if i < s.len() {
            assert(t[i] == s[i]);
            lemma_indexes_lookup(s, i);
        }
    }
    assert(a =~= b);
}

/// Taking an index out takes its name out of the map.
pub proof fn lemma_index_remove(s: Seq<Index>, p: int)
    requires
        indexes_wf(s),
        0 <= p < s.len(),
    ensures
        indexes_wf(s.remove(p)),
        indexes_view(s.remove(p)) == indexes_view(s).remove(s[p].name@),
{
    let t = s.remove(p);
    assert forall|i: int| 0 <= i < t.len() implies (#[trigger] t[i]) == s[if i < p {
        i
    } else {
        i + 1
    }] by {}
    assert forall|i: int, j: int| 0 <= i < t.len() && 0 <= j < t.len() && i != j implies (
    #[trigger] t[i]).name@ != (#[trigger] t[j]).name@ by {
        let a = if i < p {
            i
        } else {
            i + 1
        };
        let b = if j < p {
            j
        } else {
            j + 1
        };
        assert(s[a].name@ != s[b].name@);
    }
    assert forall|i: int| 0 <= i < t.len() implies buckets_wf((#[trigger] t[i]).buckets@) by {
        let a = if i < p {
            i
        } else {
            i + 1
        };
        assert(buckets_wf(s[a].buckets@));
    }
    let x = indexes_view(t);
    let y = indexes_view(s).remove(s[p].name@);
    assert forall|n: Seq<char>| x.dom().contains(n) <==> y.dom().contains(n) by {
        if has_index(t, n) {
            let i = choose|i: int| 0 <= i < t.len() && (#[trigger] t[i]).name@ == n;
            let a = if i < p {
                i
            } else {
                i + 1
            };
            assert(s[a].name@ == n);
            assert(s[a].name@ != s[p].name@);
        }
        if y.dom().contains(n) {
            let i = choose|i: int| 0 <= i < s.len() && (#[trigger] s[i]).name@ == n;
            if i < p {
                assert(t[i].name@ == n);
            } else {
                assert(t[i - 1].name@ == n);
            }
        }
    }
    assert forall|n: Seq<char>| x.dom().contains(n) implies x[n] == y[n] by {
        let i = choose|i: int| 0 <= i < t.len() && (#[trigger] t[i]).name@ == n;
        lemma_indexes_lookup(t, i);
        let a = if i < p {
            i
        } else {
            i + 1
        };
        lemma_indexes_lookup(s, a);
    }
    assert(x =~= y);
}

/// Two lists of indexes with the same names at the same places, where each
/// index of the second holds what `f` makes of the first's: their maps have
/// the same names, and `f` leads from each entry of the first to the
/// second's.
pub proof fn lemma_indexes_mapped(
    s: Seq<Index>,
    t: Seq<Index>,
    f: spec_fn(BucketMap) -> BucketMap,
)
    requires
        names_distinct(s),
        s.len() == t.len(),
        forall|i: int| 0 <= i < s.len() ==> (#[trigger] t[i]).name@ == s[i].name@,
        forall|i: int|
            0 <= i < s.len() ==> buckets_view((#[trigger] t[i]).buckets@) == f(
                buckets_view(s[i].buckets@),
            ),
    ensures
        names_distinct(t),
        indexes_view(t).dom() == indexes_view(s).dom(),
        forall|n: Seq<char>| #[trigger]
            indexes_view(s).dom().contains(n) ==> indexes_view(t)[n] == f(indexes_view(s)[n]),
{
    assert forall|i: int, j: int| 0 <= i < t.len() && 0 <= j < t.len() && i != j implies (
    #[trigger] t[i]).name@ != (#[trigger] t[j]).name@ by {
        assert(s[i].name@ != s[j].name@);
    }
    assert forall|n: Seq<char>| has_index(t, n) <==> has_index(s, n) by {
        if has_index(t, n) {
            let i = choose|i: int| 0 <= i < t.len() && (#[trigger] t[i]).name@ == n;
            assert(s[i].name@ == n);
        }
        if has_index(s, n) {
            let i = choose|i: int| 0 <= i < s.len() && (#[trigger] s[i]).name@ == n;
            assert(t[i].name@ == n);
        }
    }
    assert(indexes_view(t).dom() =~= indexes_view(s).dom());
    assert forall|n: Seq<char>| #[trigger] indexes_view(s).dom().contains(n) implies indexes_view(
        t,
    )[n] == f(indexes_view(s)[n]) by {
        let i = choose|i: int| 0 <= i < s.len() && (#[trigger] s[i]).name@ == n;
        lemma_indexes_lookup(s, i);
        assert(t[i].name@ == n);
        lemma_indexes_lookup(t, i);
    }
}

impl View for HashIndex {
    type V = Map<Seq<char>, BucketMap>;

    open spec fn view(&self) -> Self::V {
        indexes_view(self.indexes@)
    }
}

impl HashIndex {
    /// No two indexes share a name; in each, the buckets rise by hash and
    /// none is empty.
    pub open spec fn wf(self) -> bool {
        indexes_wf(self.indexes@)
    }

    /// The number of keys that the named index holds, over all its buckets.
    pub open spec fn entries(self, name: Seq<char>) -> nat {
        map_entries(self@[name])
    }

    /// No index at all.
    pub fn new() -> (r: Self)
        ensures
            r.wf(),
            r@ == Map::<Seq<char>, BucketMap>::empty(),
    {
        let r = HashIndex { indexes: Vec::new() };
        assert(r@ =~= Map::<Seq<char>, BucketMap>::empty());
        r
    }

    /// The position of the index with a name, if there is one.
    pub fn position(&self, index_name: &str) -> (r: Option<usize>)
        requires
            self.wf(),
        ensures
            match r {
                Some(i) => i < self.indexes@.len() && self.indexes@[i as int].name@ == index_name@
                    && self@.dom().contains(index_name@) && self@[index_name@] == buckets_view(
                    self.indexes@[i as int].buckets@,
                ) && self.entries(index_name@) == entries_total(self.indexes@[i as int].buckets@),
                None => !self@.dom().contains(index_name@),
            },
    {
        let mut i: usize = 0;
        while i < self.indexes.len()
            invariant
                i <= self.indexes.len(),
                self.wf(),
                forall|j: int| 0 <= j < i ==> (#[trigger] self.indexes@[j]).name@ != index_name@,
            decreases self.indexes.len() - i,
        {
            match compare_keys(self.indexes[i].name.as_str(), index_name) {
                KeyOrder::Same => {
                    proof {
                        lemma_indexes_lookup(self.indexes@, i as int);
                        lemma_entries_total(self.indexes@[i as int].buckets@);
                    }
                    return Some(i);
                },
                _ => {},
            }
            i += 1;
        }
        None
    }

    /// Registers an empty index under a name. An index that had the name is
    /// replaced by the empty one.
    pub fn create_index(&mut self, index_name: &str)
        requires
            old(self).wf(),
        ensures
            final(self).wf(),
            final(self)@ == old(self)@.insert(index_name@, Map::<u64, Seq<Seq<char>>>::empty()),
    {
        let fresh = Index { name: index_name.to_owned(), buckets: Vec::new() };
        assert(buckets_view(fresh.buckets@) =~= Map::<u64, Seq<Seq<char>>>::empty());
        match self.position(index_name) {
            Some(i) => {
                proof {
                    lemma_index_update(self.indexes@, i as int, fresh);
                }
                self.indexes.set(i, fresh);
            },
            None => {
                proof {
                    lemma_index_push(self.indexes@, fresh);
                }
                self.indexes.push(fresh);
            },
        }
    }

    /// Forgets the index of a name. Returns whether there was one.
    pub fn drop_index(&mut self, index_name: &str) -> (was_there: bool)
        requires
            old(self).wf(),
        ensures
            final(self).wf(),
            final(self)@ == old(self)@.remove(index_name@),
            was_there == old(self)@.dom().contains(index_name@),
    {
        match self.position(index_name) {
            Some(i) => {
                proof {
                    lemma_index_remove(self.indexes@, i as int);
                }
                self.indexes.remove(i);
                true
            },
            None => {
                assert(self@ =~= self@.remove(index_name@));
                false
            },
        }
    }

    /// Files a key under the hash of a value, at the end of the bucket.
    /// Nothing happens if no index has the name. Returns whether one has.
    pub fn add_to_index(&mut self, index_name: &str, key: &str, value: &Value) -> (found: bool)
        requires
            old(self).wf(),
            value.wf(),
        ensures
            final(self).wf(),
            found == old(self)@.dom().contains(index_name@),
            found ==> final(self)@ == old(self)@.insert(
                index_name@,
                filed(old(self)@[index_name@], spec_hash_value(value@), key@),
            ),
            found ==> final(self).entries(index_name@) == old(self).entries(index_name@) + 1,
            !found ==> final(self)@ == old(self)@,
    {
        match self.position(index_name) {
            Some(i) => {
                let hash = hash_value(value);
                let ghost before = self.indexes@;
                let mut index = self.indexes.remove(i);
                file_key(&mut index.buckets, hash, key.to_owned());
                proof {
                    lemma_index_update(before, i as int, index);
                    assert(self.indexes@.insert(i as int, index) =~= before.update(
                        i as int,
                        index,
                    ));
                    lemma_indexes_lookup(before.update(i as int, index), i as int);
                    lemma_entries_total(index.buckets@);
                }
                self.indexes.insert(i, index);
                true
            },
            None => false,
        }
    }

    /// Takes every occurrence of a key out of the bucket of the hash of a
    /// value; the bucket goes when its last key goes. Nothing happens if no
    /// index has the name. Returns whether one has.
    pub fn remove_from_index(&mut self, index_name: &str, key: &str, value: &Value) -> (found:
        bool)
        requires
            old(self).wf(),
            value.wf(),
        ensures
            final(self).wf(),
            found == old(self)@.dom().contains(index_name@),
            found ==> final(self)@ == old(self)@.insert(
                index_name@,
                unfiled(old(self)@[index_name@], spec_hash_value(value@), key@),
            ),
            !found ==> final(self)@ == old(self)@,
    {
        match self.position(index_name) {
            Some(i) => {
                let hash = hash_value(value);
                let ghost before = self.indexes@;
                let mut index = self.indexes.remove(i);
                unfile_key(&mut index.buckets, hash, key);
                proof {
                    lemma_index_update(before, i as int, index);
                    assert(self.indexes@.insert(i as int, index) =~= before.update(
                        i as int,
                        index,
                    ));
                }
                self.indexes.insert(i, index);
                true
            },
            None => false,
        }
    }

    /// The keys filed under a hash in the named index, in the order in which
    /// they were filed. None if the index or the bucket is not there.
    pub fn find_by_hash(&self, index_name: &str, hash: u64) -> (r: Vec<String>)
        requires
            self.wf(),
        ensures
            keys_view(r@) == if self@.dom().contains(index_name@) {
                keys_under(self@[index_name@], hash)
            } else {
                Seq::<Seq<char>>::empty()
            },
    {
        let mut out: Vec<String> = Vec::new();
        match self.position(index_name) {
            Some(i) => {
                let buckets = &self.indexes[i].buckets;
                match find_bucket(buckets, hash) {
                    Ok(b) => {
                        proof {
                            lemma_buckets_lookup(buckets@, b as int);
                        }
                        let keys = &buckets[b].keys;
                        let mut k: usize = 0;
                        while k < keys.len()
                            invariant
                                k <= keys.len(),
                                out@.len() == k,
                                forall|j: int| 0 <= j < k ==> (#[trigger] out@[j])@ == keys@[j]@,
                            decreases keys.len() - k,
                        {
                            out.push(keys[k].clone());
                            k += 1;
                        }
                        assert(keys_view(out@) =~= keys_view(keys@));
                    },
                    Err(_) => {
                        assert(keys_view(out@) =~= Seq::<Seq<char>>::empty());
                    },
                }
            },
            None => {
                assert(keys_view(out@) =~= Seq::<Seq<char>>::empty());
            },
        }
        out
    }

    /// The keys filed under the hash of a value in the named index.
    pub fn find_by_value(&self, index_name: &str, value: &Value) -> (r: Vec<String>)
        requires
            self.wf(),
            value.wf(),
        ensures
            keys_view(r@) == if self@.dom().contains(index_name@) {
                keys_under(self@[index_name@], spec_hash_value(value@))
            } else {
                Seq::<Seq<char>>::empty()
            },
    {
        self.find_by_hash(index_name, hash_value(value))
    }

    /// The hashes that have a bucket in the named index, in rising order.
    /// None if the index is not there.
    pub fn get_all_hashes(&self, index_name: &str) -> (r: Vec<u64>)
        requires
            self.wf(),
        ensures
            forall|i: int, j: int| 0 <= i < j < r@.len() ==> r@[i] < r@[j],
            forall|h: u64|
                r@.contains(h) <==> self@.dom().contains(index_name@) && self@[index_name@].dom().contains(
                    h,
                ),
    {
        let mut out: Vec<u64> = Vec::new();
        match self.position(index_name) {
            Some(i) => {
                let buckets = &self.indexes[i].buckets;
                let mut b: usize = 0;
                while b < buckets.len()
                    invariant
                        b <= buckets.len(),
                        out@.len() == b,
                        forall|j: int| 0 <= j < b ==> out@[j] == (#[trigger] buckets@[j]).hash,
                    decreases buckets.len() - b,
                {
                    out.push(buckets[b].hash);
                    b += 1;
                }
                proof {
                    assert forall|h: u64| out@.contains(h) <==> has_hash(buckets@, h) by {
                        if out@.contains(h) {
                            let j = choose|j: int| 0 <= j < out@.len() && out@[j] == h;
                            assert(buckets@[j].hash == h);
                        }
                        if has_hash(buckets@, h) {
                            let j = choose|j: int|
                                0 <= j < buckets@.len() && (#[trigger] buckets@[j]).hash == h;
                            assert(out@[j] == h);
                        }
                    }
                    assert forall|i: int, j: int| 0 <= i < j < out@.len() implies out@[i]
                        < out@[j] by {
                        assert(buckets@[i].hash < buckets@[j].hash);
                    }
                }
            },
            None => {},
        }
        out
    }

    /// Empties the named index and files every record anew, each key under
    /// the hash of its value, in the order of the records. Nothing happens if
    /// no index has the name. Returns whether one has.
    pub fn rebuild_index(&mut self, index_name: &str, storage: &Vec<Member>) -> (found: bool)
        requires
            old(self).wf(),
            members_wf(storage@),
        ensures
            final(self).wf(),
            found == old(self)@.dom().contains(index_name@),
            found ==> final(self)@ == old(self)@.insert(
                index_name@,
                grouped(storage@, storage@.len() as int),
            ),
            !found ==> final(self)@ == old(self)@,
    {
        match self.position(index_name) {
            Some(i) => {
                let ghost before = self.indexes@;
                let buckets = group_records(storage);
                let index = Index { name: index_name.to_owned(), buckets };
                proof {
                    lemma_index_update(before, i as int, index);
                }
                self.indexes.set(i, index);
                true
            },
            None => false,
        }
    }

    /// Empties the named index. Nothing happens if no index has the name.
    /// Returns whether one has.
    pub fn clear_index(&mut self, index_name: &str) -> (found: bool)
        requires
            old(self).wf(),
        ensures
            final(self).wf(),
            found == old(self)@.dom().contains(index_name@),
            found ==> final(self)@ == old(self)@.insert(
                index_name@,
                Map::<u64, Seq<Seq<char>>>::empty(),
            ),
            !found ==> final(self)@ == old(self)@,
    {
        match self.position(index_name) {
            Some(i) => {
                let index = Index { name: index_name.to_owned(), buckets: Vec::new() };
                proof {
                    assert(buckets_view(index.buckets@) =~= Map::<u64, Seq<Seq<char>>>::empty());
                    lemma_index_update(self.indexes@, i as int, index);
                }
                self.indexes.set(i, index);
                true
            },
            None => false,
        }
    }

    /// Whether an index has the name.
    pub fn index_exists(&self, index_name: &str) -> (r: bool)
        requires
            self.wf(),
        ensures
            r == self@.dom().contains(index_name@),
    {
        self.position(index_name).is_some()
    }

    /// The number of buckets of the named index and the number of keys in
    /// them; the second number stops at `usize::MAX`. `None` if no index has
    /// the name.
    pub fn get_index_stats(&self, index_name: &str) -> (r: Option<(usize, usize)>)
        requires
            self.wf(),
        ensures
            r is Some <==> self@.dom().contains(index_name@),
            r matches Some((unique_hashes, total_entries)) ==> {
                &&& unique_hashes == self@[index_name@].dom().len()
                &&& total_entries == if self.entries(index_name@) <= usize::MAX {
                    self.entries(index_name@)
                } else {
                    usize::MAX as nat
                }
            },
    {
        match self.position(index_name) {
            Some(i) => {
                let buckets = &self.indexes[i].buckets;
                proof {
                    lemma_buckets_len(buckets@);
                    assert(buckets@.subrange(0, 0) =~= Seq::<Bucket>::empty());
                }
                let mut total: usize = 0;
                let mut b: usize = 0;
                while b < buckets.len()
                    invariant
                        b <= buckets.len(),
                        total == if entries_total(buckets@.subrange(0, b as int)) <= usize::MAX {
                            entries_total(buckets@.subrange(0, b as int))
                        } else {
                            usize::MAX as nat
                        },
                    decreases buckets.len() - b,
                {
                    proof {
                        assert(buckets@.subrange(0, b + 1).drop_last() =~= buckets@.subrange(
                            0,
                            b as int,
                        ));
                    }
                    total = total.saturating_add(buckets[b].keys.len());
                    b += 1;
                }
                proof {
                    assert(buckets@.subrange(0, buckets@.len() as int) =~= buckets@);
                }
                Some((buckets.len(), total))
            },
            None => None,
        }
    }

    /// The names of the indexes, in the order in which they were created.
    pub fn list_indexes(&self) -> (r: Vec<String>)
        requires
            self.wf(),
        ensures
            r@.len() == self.indexes@.len(),
            forall|i: int| 0 <= i < r@.len() ==> (#[trigger] r@[i])@ == self.indexes@[i].name@,
            forall|n: Seq<char>| keys_view(r@).contains(n) <==> self@.dom().contains(n),
            keys_view(r@).no_duplicates(),
    {
        let mut out: Vec<String> = Vec::new();
        let mut i: usize = 0;
        while i < self.indexes.len()
            invariant
                i <= self.indexes.len(),
                out@.len() == i,
                forall|j: int| 0 <= j < i ==> (#[trigger] out@[j])@ == self.indexes@[j].name@,
            decreases self.indexes.len() - i,
        {
            out.push(self.indexes[i].name.clone());
            i += 1;
        }
        proof {
            let names = keys_view(out@);
            assert forall|n: Seq<char>| names.contains(n) <==> has_index(self.indexes@, n) by {
                if names.contains(n) {
                    let j = choose|j: int| 0 <= j < names.len() && names[j] == n;
                    assert(self.indexes@[j].name@ == n);
                }
                if has_index(self.indexes@, n) {
                    let j = choose|j: int|
                        0 <= j < self.indexes@.len() && (#[trigger] self.indexes@[j]).name@ == n;
                    assert(names[j] == n);
                }
            }
            assert forall|i: int, j: int| 0 <= i < names.len() && 0 <= j < names.len() && i
                != j implies names[i] != names[j] by {
                assert(self.indexes@[i].name@ != self.indexes@[j].name@);
            }
        }
        out
    }

    /// In every index, moves a key from under one hash to under another:
    /// out from under `old_hash` if that is given, in under `new_hash` if
    /// that is given.
    pub fn refile_key(&mut self, old_hash: Option<u64>, new_hash: Option<u64>, key: &str)
        requires
            old(self).wf(),
        ensures
            final(self).wf(),
            final(self)@.dom() == old(self)@.dom(),
            forall|n: Seq<char>| #[trigger]
                old(self)@.dom().contains(n) ==> final(self)@[n] == refiled(
                    old(self)@[n],
                    old_hash,
                    new_hash,
                    key@,
                ),
    {
        let ghost before = self.indexes@;
        let mut i: usize = 0;
        while i < self.indexes.len()
            invariant
                i <= self.indexes.len(),
                indexes_wf(before),
                self.indexes@.len() == before.len(),
                forall|j: int|
                    0 <= j < before.len() ==> (#[trigger] self.indexes@[j]).name@
                        == before[j].name@,
                forall|j: int|
                    0 <= j < i ==> buckets_view((#[trigger] self.indexes@[j]).buckets@) == refiled(
                        buckets_view(before[j].buckets@),
                        old_hash,
                        new_hash,
                        key@,
                    ),
                forall|j: int| i <= j < before.len() ==> (#[trigger] self.indexes@[j]) == before[j],
                forall|j: int|
                    0 <= j < before.len() ==> buckets_wf((#[trigger] self.indexes@[j]).buckets@),
            decreases self.indexes.len() - i,
        {
            let ghost current = self.indexes@;
            let mut index = self.indexes.remove(i);
            match old_hash {
                Some(h) => {
                    unfile_key(&mut index.buckets, h, key);
                },
                None => {},
            }
            match new_hash {
                Some(h) => {
                    file_key(&mut index.buckets, h, key.to_owned());
                },
                None => {},
            }
            self.indexes.insert(i, index);
            proof {
                assert(self.indexes@ =~= current.update(i as int, index));
            }
            i += 1;
        }
        proof {
            lemma_indexes_mapped(
                before,
                self.indexes@,
                |b: BucketMap| refiled(b, old_hash, new_hash, key@),
            );
        }
    }

    /// Empties every index and files every record anew in each.
    pub fn rebuild_all(&mut self, storage: &Vec<Member>)
        requires
            old(self).wf(),
            members_wf(storage@),
        ensures
            final(self).wf(),
            final(self)@.dom() == old(self)@.dom(),
            forall|n: Seq<char>| #[trigger]
                old(self)@.dom().contains(n) ==> final(self)@[n] == grouped(
                    storage@,
                    storage@.len() as int,
                ),
    {
        let ghost before = self.indexes@;
        let mut i: usize = 0;
        while i < self.indexes.len()
            invariant
                i <= self.indexes.len(),
                indexes_wf(before),
                members_wf(storage@),
                self.indexes@.len() == before.len(),
                forall|j: int|
                    0 <= j < before.len() ==> (#[trigger] self.indexes@[j]).name@
                        == before[j].name@,
                forall|j: int|
                    0 <= j < i ==> buckets_view((#[trigger] self.indexes@[j]).buckets@) == grouped(
                        storage@,
                        storage@.len() as int,
                    ),
                forall|j: int|
                    0 <= j < before.len() ==> buckets_wf((#[trigger] self.indexes@[j]).buckets@),
            decreases self.indexes.len() - i,
        {
            let ghost current = self.indexes@;
            let mut index = self.indexes.remove(i);
            index.buckets = group_records(storage);
            self.indexes.insert(i, index);
            proof {
                assert(self.indexes@ =~= current.update(i as int, index));
            }
            i += 1;
        }
        proof {
            lemma_indexes_mapped(
                before,
                self.indexes@,
                |b: BucketMap| grouped(storage@, storage@.len() as int),
            );
        }
    }

    /// Empties every index.
    pub fn clear_all(&mut self)
        requires
            old(self).wf(),
        ensures
            final(self).wf(),
            final(self)@.dom() == old(self)@.dom(),
            forall|n: Seq<char>| #[trigger]
                old(self)@.dom().contains(n) ==> final(self)@[n] == Map::<
                    u64,
                    Seq<Seq<char>>,
                >::empty(),
    {
        let ghost before = self.indexes@;
        let mut i: usize = 0;
        while i < self.indexes.len()
            invariant
                i <= self.indexes.len(),
                indexes_wf(before),
                self.indexes@.len() == before.len(),
                forall|j: int|
                    0 <= j < before.len() ==> (#[trigger] self.indexes@[j]).name@
                        == before[j].name@,
                forall|j: int|
                    0 <= j < i ==> buckets_view((#[trigger] self.indexes@[j]).buckets@) == Map::<
                        u64,
                        Seq<Seq<char>>,
                    >::empty(),
                forall|j: int|
                    0 <= j < before.len() ==> buckets_wf((#[trigger] self.indexes@[j]).buckets@),
            decreases self.indexes.len() - i,
        {
            let ghost current = self.indexes@;
            let mut index = self.indexes.remove(i);
            index.buckets = Vec::new();
            proof {
                assert(buckets_view(index.buckets@) =~= Map::<u64, Seq<Seq<char>>>::empty());
            }
            self.indexes.insert(i, index);
            proof {
                assert(self.indexes@ =~= current.update(i as int, index));
            }
            i += 1;
        }
        proof {
            lemma_indexes_mapped(
                before,
                self.indexes@,
                |b: BucketMap| Map::<u64, Seq<Seq<char>>>::empty(),
            );
        }
    }
}

/// The buckets that come of filing every record, each key under the hash of
/// its value, in the order of the records.
pub fn group_records(storage: &Vec<Member>) -> (buckets: Vec<Bucket>)
    requires
        members_wf(storage@),
    ensures
        buckets_wf(buckets@),
        buckets_view(buckets@) == grouped(storage@, storage@.len() as int),
{
    let mut buckets: Vec<Bucket> = Vec::new();
    assert(buckets_view(buckets@) =~= grouped(storage@, 0));
    let mut r: usize = 0;
    while r < storage.len()
        invariant
            r <= storage.len(),
            members_wf(storage@),
            buckets_wf(buckets@),
            buckets_view(buckets@) == grouped(storage@, r as int),
        decreases storage.len() - r,
    {
        let hash = hash_value(&storage[r].value);
        file_key(&mut buckets, hash, storage[r].key.clone());
        r += 1;
    }
    buckets
}

} // verus!
