//! Taking indexes over from what was found in the index directory.

use vstd::prelude::*;
use crate::buckets::{
    same_key,
    buckets_view,
    buckets_wf,
    find_bucket,
    keys_view,
    Bucket,
    lemma_bucket_insert,
    lemma_bucket_update,
};
use crate::hash_index::{BucketMap, HashIndex, Index, lemma_index_push, lemma_index_update};
use crate::layout::{index_name, index_name_of};
use crate::persist::{IndexContent, LoadError};

verus! {

/// The map that comes of putting the first `n` buckets in, one after the
/// other: a bucket takes the place of an earlier one with its hash, and a
/// bucket without keys is passed over.
pub open spec fn buckets_put_all(s: Seq<Bucket>, n: int) -> BucketMap
    decreases n,
{
    if n <= 0 || n > s.len() {
        Map::empty()
    } else if s[n - 1].keys@.len() == 0 {
        buckets_put_all(s, n - 1)
    } else {
        buckets_put_all(s, n - 1).insert(s[n - 1].hash, keys_view(s[n - 1].keys@))
    }
}

/// What an index holds after it took over what was found at the path of its
/// file; `None` if no index comes of it.
pub open spec fn loaded_index(content: IndexContent) -> Option<BucketMap> {
    match content {
        IndexContent::Blank => Some(Map::empty()),
        IndexContent::Buckets(b) => Some(buckets_put_all(b@, b@.len() as int)),
        _ => None,
    }
}

/// Sorts buckets by hash. Where a hash comes more than once, the last of
/// its buckets stays; a bucket without keys is dropped.
pub fn sort_buckets(buckets: Vec<Bucket>) -> (out: Vec<Bucket>)
    ensures
        buckets_wf(out@),
        buckets_view(out@) == buckets_put_all(buckets@, buckets@.len() as int),
{
    let ghost all = buckets@;
    let mut rest = buckets;
    let mut stack: Vec<Bucket> = Vec::new();
    // Turn the list round, so that the buckets can be taken off in order.
    while rest.len() > 0
        invariant
            rest@.len() + stack@.len() == all.len(),
            forall|j: int| 0 <= j < rest@.len() ==> (#[trigger] rest@[j]) == all[j],
            forall|j: int|
                0 <= j < stack@.len() ==> (#[trigger] stack@[j]) == all[all.len() - 1 - j],
        decreases rest.len(),
    {
        let last = rest.pop().unwrap();
        stack.push(last);
    }
    let mut out: Vec<Bucket> = Vec::new();
    assert(buckets_view(out@) =~= buckets_put_all(all, 0));
    while stack.len() > 0
        invariant
            stack@.len() <= all.len(),
            forall|j: int|
                0 <= j < stack@.len() ==> (#[trigger] stack@[j]) == all[all.len() - 1 - j],
            buckets_wf(out@),
            buckets_view(out@) == buckets_put_all(all, all.len() - stack@.len()),
        decreases stack.len(),
    {
        let next = stack.pop().unwrap();
        if next.keys.len() > 0 {
            match find_bucket(&out, next.hash) {
                Ok(i) => {
                    proof {
                        lemma_bucket_update(out@, i as int, next);
                    }
                    out.set(i, next);
                },
                Err(p) => {
                    proof {
                        lemma_bucket_insert(out@, p as int, next);
                    }
                    out.insert(p, next);
                },
            }
        }
    }
    out
}

impl HashIndex {
    /// Puts an index with the given buckets under a name, in place of the
    /// one that had the name if one had.
    pub fn put_index(&mut self, index_name: &str, buckets: Vec<Bucket>)
        requires
            old(self).wf(),
            buckets_wf(buckets@),
        ensures
            final(self).wf(),
            final(self)@ == old(self)@.insert(index_name@, buckets_view(buckets@)),
    {
        let index = Index { name: index_name.to_owned(), buckets };
        match self.position(index_name) {
            Some(i) => {
                proof {
                    lemma_index_update(self.indexes@, i as int, index);
                }
                self.indexes.set(i, index);
            },
            None => {
                proof {
                    lemma_index_push(self.indexes@, index);
                }
                self.indexes.push(index);
            },
        }
    }

    /// Takes an index over from what was found at the path of its file: the
    /// buckets of a file that holds some, an empty index from a blank file.
    /// A missing file changes nothing. An invalid file is an error and
    /// changes nothing.
    pub fn load_index(&mut self, index_name: &str, content: IndexContent) -> (r: Result<
        (),
        LoadError,
    >)
        requires
            old(self).wf(),
        ensures
            final(self).wf(),
            r is Err <==> content is Invalid,
            r matches Err(e) ==> e == LoadError::Malformed,
            final(self)@ == match loaded_index(content) {
                Some(buckets) => old(self)@.insert(index_name@, buckets),
                None => old(self)@,
            },
    {
        match content {
            IndexContent::Missing => Ok(()),
            IndexContent::Invalid => Err(LoadError::Malformed),
            IndexContent::Blank => {
                let empty: Vec<Bucket> = Vec::new();
                assert(buckets_view(empty@) =~= Map::<u64, Seq<Seq<char>>>::empty());
                self.put_index(index_name, empty);
                Ok(())
            },
            IndexContent::Buckets(b) => {
                self.put_index(index_name, sort_buckets(b));
                Ok(())
            },
        }
    }

    /// Takes over every index that was found in the index directory, in the
    /// order given. Each entry is the name of a file and what the file
    /// holds; a file whose name is not that of an index file is passed over.
    /// Stops at the first index file that is invalid, with what was taken
    /// over until then.
    pub fn load_all_indexes(&mut self, found: Vec<(String, IndexContent)>) -> (r: Result<
        (),
        LoadError,
    >)
        requires
            old(self).wf(),
        ensures
            final(self).wf(),
            r is Err <==> stop_at(found@, 0) < found@.len(),
            r matches Err(e) ==> e == LoadError::Malformed,
            final(self)@ == loaded_all(old(self)@, found@, stop_at(found@, 0)),
    {
        let ghost all = found@;
        let ghost start = self@;
        let mut stack = reversed(found);
        proof {
            lemma_stop_at(all, 0);
        }
        while stack.len() > 0
            invariant
                stack@.len() <= all.len(),
                forall|j: int|
                    0 <= j < stack@.len() ==> (#[trigger] stack@[j]) == all[all.len() - 1 - j],
                self.wf(),
                all == found@,
                start == old(self)@,
                forall|j: int| 0 <= j < all.len() - stack@.len() ==> !stops(#[trigger] all[j]),
                self@ == loaded_all(start, all, all.len() - stack@.len()),
            decreases stack.len(),
        {
            let ghost done = all.len() - stack@.len();
            let next = stack.pop().unwrap();
            match index_name(next.0.as_str()) {
                Some(name) => match self.load_index(name.as_str(), next.1) {
                    Ok(()) => {},
                    Err(e) => {
                        proof {
                            assert(stops(all[done]));
                            lemma_stop_at_first(all, 0, done);
                        }
                        return Err(e);
                    },
                },
                None => {},
            }
        }
        proof {
            lemma_stop_at_none(all, 0);
        }
        Ok(())
    }

    /// The names of the indexes: those that are there, and after them those
    /// that were found in the index directory and could be taken over, which
    /// are taken over. Each entry of `found` is the name of a file and what
    /// the file holds. A file is passed over if its name is not that of an
    /// index file, if an index of its name is listed already, or if it is
    /// invalid.
    pub fn list_indexes_with(&mut self, found: Vec<(String, IndexContent)>) -> (r: Vec<String>)
        requires
            old(self).wf(),
        ensures
            final(self).wf(),
            keys_view(r@) == listed_names(index_names(old(self).indexes@), found@, found@.len() as int),
            final(self)@ == listed_indexes(
                old(self)@,
                index_names(old(self).indexes@),
                found@,
                found@.len() as int,
            ),
    {
        let ghost all = found@;
        let ghost start = self@;
        let mut names = self.list_indexes();
        let ghost start_names = keys_view(names@);
        assert(start_names =~= index_names(self.indexes@));
        let mut stack = reversed(found);
        while stack.len() > 0
            invariant
                stack@.len() <= all.len(),
                forall|j: int|
                    0 <= j < stack@.len() ==> (#[trigger] stack@[j]) == all[all.len() - 1 - j],
                self.wf(),
                keys_view(names@) == listed_names(start_names, all, all.len() - stack@.len()),
                self@ == listed_indexes(start, start_names, all, all.len() - stack@.len()),
            decreases stack.len(),
        {
            let ghost before = keys_view(names@);
            let next = stack.pop().unwrap();
            match index_name(next.0.as_str()) {
                Some(name) => {
                    if !contains_name(&names, name.as_str()) {
                        match self.load_index(name.as_str(), next.1) {
                            Ok(()) => {
                                names.push(name);
                                assert(keys_view(names@) =~= before.push(name@));
                            },
                            Err(_) => {},
                        }
                    }
                },
                None => {},
            }
        }
        names
    }
}

/// The names of indexes, in their order.
pub open spec fn index_names(s: Seq<Index>) -> Seq<Seq<char>> {
    Seq::new(s.len(), |i: int| s[i].name@)
}

/// Whether a name stands in a list of names.
pub fn contains_name(names: &Vec<String>, name: &str) -> (r: bool)
    ensures
        r == keys_view(names@).contains(name@),
{
    let mut i: usize = 0;
    while i < names.len()
        invariant
            i <= names.len(),
            forall|j: int| 0 <= j < i ==> keys_view(names@)[j] != name@,
        decreases names.len() - i,
    {
        if same_key(names[i].as_str(), name) {
            assert(keys_view(names@)[i as int] == name@);
            return true;
        }
        i += 1;
    }
    false
}

/// The entries of a list, the last first.
fn reversed(found: Vec<(String, IndexContent)>) -> (stack: Vec<(String, IndexContent)>)
    ensures
        stack@.len() == found@.len(),
        forall|j: int|
            0 <= j < stack@.len() ==> (#[trigger] stack@[j]) == found@[found@.len() - 1 - j],
{
    let ghost all = found@;
    let mut rest = found;
    let mut stack: Vec<(String, IndexContent)> = Vec::new();
    while rest.len() > 0
        invariant
            rest@.len() + stack@.len() == all.len(),
            forall|j: int| 0 <= j < rest@.len() ==> (#[trigger] rest@[j]) == all[j],
            forall|j: int|
                0 <= j < stack@.len() ==> (#[trigger] stack@[j]) == all[all.len() - 1 - j],
        decreases rest.len(),
    {
        let last = rest.pop().unwrap();
        stack.push(last);
    }
    stack
}

/// The file is an index file that is invalid: at such a file the taking
/// over of all indexes stops.
pub open spec fn stops(entry: (String, IndexContent)) -> bool {
    index_name_of(entry.0@) is Some && entry.1 is Invalid
}

/// The position of the first file from `from` on at which the taking over
/// stops, or the length of the list if there is none.
pub open spec fn stop_at(found: Seq<(String, IndexContent)>, from: int) -> int
    decreases found.len() - from,
{
    if from < 0 || from >= found.len() {
        found.len() as int
    } else if stops(found[from]) {
        from
    } else {
        stop_at(found, from + 1)
    }
}

/// The indexes after the first `n` files were taken over.
pub open spec fn loaded_all(
    start: Map<Seq<char>, BucketMap>,
    found: Seq<(String, IndexContent)>,
    n: int,
) -> Map<Seq<char>, BucketMap>
    decreases n,
{
    if n <= 0 || n > found.len() {
        start
    } else {
        match (index_name_of(found[n - 1].0@), loaded_index(found[n - 1].1)) {
            (Some(name), Some(buckets)) => loaded_all(start, found, n - 1).insert(name, buckets),
            _ => loaded_all(start, found, n - 1),
        }
    }
}

/// The name under which a file is listed and taken over, given the names
/// that are listed already; `None` if the file is passed over.
pub open spec fn taken(names: Seq<Seq<char>>, entry: (String, IndexContent)) -> Option<Seq<char>> {
    match index_name_of(entry.0@) {
        Some(name) => if !names.contains(name) && !(entry.1 is Invalid) {
            Some(name)
        } else {
            None
        },
        None => None,
    }
}

/// The names that are listed after the first `n` files were gone through.
pub open spec fn listed_names(
    start: Seq<Seq<char>>,
    found: Seq<(String, IndexContent)>,
    n: int,
) -> Seq<Seq<char>>
    decreases n,
{
    if n <= 0 || n > found.len() {
        start
    } else {
        let before = listed_names(start, found, n - 1);
        match taken(before, found[n - 1]) {
            Some(name) => before.push(name),
            None => before,
        }
    }
}

/// The indexes after the first `n` files were gone through for the list.
pub open spec fn listed_indexes(
    start: Map<Seq<char>, BucketMap>,
    start_names: Seq<Seq<char>>,
    found: Seq<(String, IndexContent)>,
    n: int,
) -> Map<Seq<char>, BucketMap>
    decreases n,
{
    if n <= 0 || n > found.len() {
        start
    } else {
        let before = listed_indexes(start, start_names, found, n - 1);
        match taken(listed_names(start_names, found, n - 1), found[n - 1]) {
            Some(name) => match loaded_index(found[n - 1].1) {
                Some(buckets) => before.insert(name, buckets),
                None => before,
            },
            None => before,
        }
    }
}

proof fn lemma_stop_at(found: Seq<(String, IndexContent)>, from: int)
    requires
        0 <= from <= found.len(),
    ensures
        from <= stop_at(found, from) <= found.len(),
    decreases found.len() - from,
{
    if from < found.len() && !stops(found[from]) {
        lemma_stop_at(found, from + 1);
    }
}

proof fn lemma_stop_at_first(found: Seq<(String, IndexContent)>, from: int, at: int)
    requires
        0 <= from <= at < found.len(),
        stops(found[at]),
        forall|j: int| from <= j < at ==> !stops(#[trigger] found[j]),
    ensures
        stop_at(found, from) == at,
    decreases at - from,
{
    if from < at {
        lemma_stop_at_first(found, from + 1, at);
    }
}

proof fn lemma_stop_at_none(found: Seq<(String, IndexContent)>, from: int)
    requires
        0 <= from <= found.len(),
        forall|j: int| from <= j < found.len() ==> !stops(#[trigger] found[j]),
    ensures
        stop_at(found, from) == found.len(),
    decreases found.len() - from,
{
    if from < found.len() {
        lemma_stop_at_none(found, from + 1);
    }
}

} // verus!
