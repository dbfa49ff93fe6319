//! What it means for an index to agree with the records of a store, and why
//! the store's way of maintaining an index keeps that agreement.

use vstd::prelude::*;
use crate::buckets::{
    filed, keys_under, unfiled, without_key, lemma_without_key, lemma_without_key_member,
};
use crate::hash_index::{grouped, refiled, BucketMap};
use crate::hashing::spec_hash_value;
use crate::members::{is_gap, lemma_insert_view};
use crate::value::{Json, Member, members_sorted, members_view};

verus! {

/// The keys of one bucket are filed rightly: none twice, and each the key of
/// a record whose value has the bucket's hash.
pub open spec fn bucket_sound(keys: Seq<Seq<char>>, h: u64, store: Map<Seq<char>, Json>) -> bool {
    &&& keys.no_duplicates()
    &&& forall|i: int|
        0 <= i < keys.len() ==> store.dom().contains(#[trigger] keys[i]) && spec_hash_value(
            store[keys[i]],
        ) == h
}

/// Every key that the index holds is filed rightly.
pub open spec fn index_sound(b: BucketMap, store: Map<Seq<char>, Json>) -> bool {
    forall|h: u64| #[trigger] b.dom().contains(h) ==> bucket_sound(b[h], h, store)
}

/// Every record of the store is filed in the index, under the hash of its
/// value.
pub open spec fn index_complete(b: BucketMap, store: Map<Seq<char>, Json>) -> bool {
    forall|k: Seq<char>| #[trigger]
        store.dom().contains(k) ==> keys_under(b, spec_hash_value(store[k])).contains(k)
}

/// In a sound index a key stands only under the hash of its record's value.
pub proof fn lemma_sound_key_place(b: BucketMap, store: Map<Seq<char>, Json>, h: u64, k: Seq<char>)
    requires
        index_sound(b, store),
        keys_under(b, h).contains(k),
    ensures
        store.dom().contains(k),
        spec_hash_value(store[k]) == h,
{
    assert(b.dom().contains(h));
    let i = choose|i: int| 0 <= i < b[h].len() && b[h][i] == k;
    assert(store.dom().contains(b[h][i]));
}

/// Taking the key of a record out of the index, from under the hash of its
/// value, leaves the index in agreement with the store without that record.
pub proof fn lemma_unfile_agrees(b: BucketMap, store: Map<Seq<char>, Json>, k: Seq<char>)
    requires
        index_sound(b, store),
        store.dom().contains(k),
    ensures
        index_sound(unfiled(b, spec_hash_value(store[k]), k), store.remove(k)),
        index_complete(b, store) ==> index_complete(
            unfiled(b, spec_hash_value(store[k]), k),
            store.remove(k),
        ),
{
    let h = spec_hash_value(store[k]);
    let u = unfiled(b, h, k);
    let s2 = store.remove(k);
    assert forall|g: u64| #[trigger] u.dom().contains(g) implies bucket_sound(u[g], g, s2) by {
        assert(b.dom().contains(g));
        if g == h {
            let w = without_key(b[h], k);
            lemma_without_key(b[h], k);
            assert(u[g] == w);
            assert forall|i: int| 0 <= i < w.len() implies s2.dom().contains(#[trigger] w[i])
                && spec_hash_value(s2[w[i]]) == g by {
                lemma_without_key_member(b[h], k, w[i]);
                assert(w.contains(w[i]));
                let j = choose|j: int| 0 <= j < b[h].len() && b[h][j] == w[i];
                assert(store.dom().contains(b[h][j]));
            }
        } else {
            assert(u[g] == b[g]);
            assert forall|i: int| 0 <= i < b[g].len() implies s2.dom().contains(
                #[trigger] b[g][i],
            ) && spec_hash_value(s2[b[g][i]]) == g by {
                assert(store.dom().contains(b[g][i]));
                if b[g][i] == k {
                    assert(keys_under(b, g).contains(k));
                    lemma_sound_key_place(b, store, g, k);
                }
            }
        }
    }
    if index_complete(b, store) {
        assert forall|x: Seq<char>| #[trigger] s2.dom().contains(x) implies keys_under(
            u,
            spec_hash_value(s2[x]),
        ).contains(x) by {
            assert(store.dom().contains(x));
            let g = spec_hash_value(store[x]);
            assert(keys_under(b, g).contains(x));
            if g == h {
                lemma_without_key_member(b[h], k, x);
            }
        }
    }
}

/// Filing the key of a new record under the hash of its value leaves the
/// index in agreement with the store that has that record too.
pub proof fn lemma_file_agrees(b: BucketMap, store: Map<Seq<char>, Json>, k: Seq<char>, v: Json)
    requires
        index_sound(b, store),
        !store.dom().contains(k),
    ensures
        index_sound(filed(b, spec_hash_value(v), k), store.insert(k, v)),
        index_complete(b, store) ==> index_complete(
            filed(b, spec_hash_value(v), k),
            store.insert(k, v),
        ),
{
    let h = spec_hash_value(v);
    let f = filed(b, h, k);
    let s2 = store.insert(k, v);
    assert forall|g: u64| #[trigger] f.dom().contains(g) implies bucket_sound(f[g], g, s2) by {
        if g == h {
            let before = keys_under(b, h);
            let after = before.push(k);
            assert(f[g] == after);
            if before.contains(k) {
                lemma_sound_key_place(b, store, h, k);
            }
            if b.dom().contains(h) {
                assert(bucket_sound(b[h], h, store));
            }
            assert forall|i: int, j: int| 0 <= i < after.len() && 0 <= j < after.len() && i
                != j implies after[i] != after[j] by {
                if i < before.len() && j < before.len() {
                    assert(before[i] != before[j]);
                } else if i < before.len() {
                    assert(before.contains(before[i]));
                } else {
                    assert(before.contains(before[j]));
                }
            }
            assert forall|i: int| 0 <= i < after.len() implies s2.dom().contains(
                #[trigger] after[i],
            ) && spec_hash_value(s2[after[i]]) == g by {
                if i < before.len() {
                    assert(store.dom().contains(before[i]));
                }
            }
        } else {
            assert(b.dom().contains(g));
            assert(f[g] == b[g]);
            assert forall|i: int| 0 <= i < b[g].len() implies s2.dom().contains(
                #[trigger] b[g][i],
            ) && spec_hash_value(s2[b[g][i]]) == g by {
                assert(store.dom().contains(b[g][i]));
            }
        }
    }
    if index_complete(b, store) {
        assert forall|x: Seq<char>| #[trigger] s2.dom().contains(x) implies keys_under(
            f,
            spec_hash_value(s2[x]),
        ).contains(x) by {
            if x == k {
                let after = keys_under(b, h).push(k);
                assert(after[after.len() - 1] == k);
            } else {
                assert(store.dom().contains(x));
                let g = spec_hash_value(store[x]);
                assert(keys_under(b, g).contains(x));
                if g == h {
                    let j = choose|j: int| 0 <= j < b[h].len() && b[h][j] == x;
                    assert(keys_under(b, h).push(k)[j] == x);
                }
            }
        }
    }
}

/// The store's way of writing a record keeps an index in agreement: the key
/// leaves the bucket of the old value, if there was one, and joins the
/// bucket of the new value.
pub proof fn lemma_write_agrees(b: BucketMap, store: Map<Seq<char>, Json>, k: Seq<char>, v: Json)
    requires
        index_sound(b, store),
    ensures
        index_sound(
            refiled(
                b,
                if store.dom().contains(k) {
                    Some(spec_hash_value(store[k]))
                } else {
                    None
                },
                Some(spec_hash_value(v)),
                k,
            ),
            store.insert(k, v),
        ),
        index_complete(b, store) ==> index_complete(
            refiled(
                b,
                if store.dom().contains(k) {
                    Some(spec_hash_value(store[k]))
                } else {
                    None
                },
                Some(spec_hash_value(v)),
                k,
            ),
            store.insert(k, v),
        ),
{
    if store.dom().contains(k) {
        lemma_unfile_agrees(b, store, k);
        lemma_file_agrees(unfiled(b, spec_hash_value(store[k]), k), store.remove(k), k, v);
        assert(store.remove(k).insert(k, v) =~= store.insert(k, v));
    } else {
        lemma_file_agrees(b, store, k, v);
    }
}

/// An index without buckets agrees with every store as far as it goes, and
/// wholly with the empty store.
pub proof fn lemma_empty_agrees(store: Map<Seq<char>, Json>)
    ensures
        index_sound(Map::<u64, Seq<Seq<char>>>::empty(), store),
        store.dom() =~= Set::<Seq<char>>::empty() ==> index_complete(
            Map::<u64, Seq<Seq<char>>>::empty(),
            store,
        ),
{
}

/// The records before position `n` make the map of the records before
/// `n - 1` with the record at `n - 1` put in.
pub proof fn lemma_prefix_view(records: Seq<Member>, n: int)
    requires
        members_sorted(records),
        0 < n <= records.len(),
    ensures
        members_sorted(records.subrange(0, n - 1)),
        members_sorted(records.subrange(0, n)),
        !members_view(records.subrange(0, n - 1)).dom().contains(records[n - 1].key@),
        members_view(records.subrange(0, n)) == members_view(records.subrange(0, n - 1)).insert(
            records[n - 1].key@,
            records[n - 1].value@,
        ),
{
    let p = records.subrange(0, n - 1);
    let q = records.subrange(0, n);
    assert forall|i: int, j: int| 0 <= i < j < q.len() implies crate::keys::key_lt(
        (#[trigger] q[i]).key@,
        (#[trigger] q[j]).key@,
    ) by {
        assert(q[i] == records[i] && q[j] == records[j]);
    }
    assert forall|i: int, j: int| 0 <= i < j < p.len() implies crate::keys::key_lt(
        (#[trigger] p[i]).key@,
        (#[trigger] p[j]).key@,
    ) by {
        assert(p[i] == records[i] && p[j] == records[j]);
    }
    assert(is_gap(p, records[n - 1].key@, n - 1)) by {
        assert forall|j: int| 0 <= j < n - 1 implies crate::keys::key_lt(
            (#[trigger] p[j]).key@,
            records[n - 1].key@,
        ) by {
            assert(p[j] == records[j]);
        }
    }
    lemma_insert_view(p, n - 1, records[n - 1]);
    crate::members::lemma_gap_absent(p, records[n - 1].key@, n - 1);
    assert(p.insert(n - 1, records[n - 1]) =~= q);
}

/// Filing all records anew gives an index that agrees wholly with them.
pub proof fn lemma_grouped_agrees(records: Seq<Member>, n: int)
    requires
        members_sorted(records),
        0 <= n <= records.len(),
    ensures
        index_sound(grouped(records, n), members_view(records.subrange(0, n))),
        index_complete(grouped(records, n), members_view(records.subrange(0, n))),
    decreases n,
{
    if n == 0 {
        assert(members_view(records.subrange(0, 0)).dom() =~= Set::<Seq<char>>::empty());
    } else {
        lemma_grouped_agrees(records, n - 1);
        lemma_prefix_view(records, n);
        lemma_file_agrees(
            grouped(records, n - 1),
            members_view(records.subrange(0, n - 1)),
            records[n - 1].key@,
            records[n - 1].value@,
        );
    }
}

} // verus!
