//! The buckets of one index: for each structural hash the keys that were
//! filed under it, in the order in which they came. Buckets are kept in
//! rising order of their hash, and an empty bucket is not kept at all.

use vstd::prelude::*;
use crate::keys::{compare_keys, KeyOrder};

verus! {

/// Whether two keys are the same key.
pub fn same_key(a: &str, b: &str) -> (r: bool)
    ensures
        r == (a@ == b@),
{
    match compare_keys(a, b) {
        KeyOrder::Same => true,
        _ => false,
    }
}

/// The keys that share one hash.
#[derive(Debug, PartialEq, Eq)]
pub struct Bucket {
    pub hash: u64,
    pub keys: Vec<String>,
}

/// The keys of a bucket as plain strings, in order.
pub open spec fn keys_view(v: Seq<String>) -> Seq<Seq<char>> {
    Seq::new(v.len(), |i: int| v[i]@)
}

/// Some bucket of `s` has the hash `h`.
pub open spec fn has_hash(s: Seq<Bucket>, h: u64) -> bool {
    exists|i: int| 0 <= i < s.len() && (#[trigger] s[i]).hash == h
}

pub open spec fn buckets_sorted(s: Seq<Bucket>) -> bool {
    forall|i: int, j: int| 0 <= i < j < s.len() ==> (#[trigger] s[i]).hash < (#[trigger] s[j]).hash
}

/// The buckets rise strictly by hash, and none is empty.
pub open spec fn buckets_wf(s: Seq<Bucket>) -> bool {
    &&& buckets_sorted(s)
    &&& forall|i: int| 0 <= i < s.len() ==> (#[trigger] s[i]).keys@.len() > 0
}

/// The map from each hash that has a bucket to the keys of that bucket.
pub open spec fn buckets_view(s: Seq<Bucket>) -> Map<u64, Seq<Seq<char>>> {
    Map::new(
        |h: u64| has_hash(s, h),
        |h: u64| keys_view(s[choose|i: int| 0 <= i < s.len() && (#[trigger] s[i]).hash == h].keys@),
    )
}

/// The keys filed under a hash: those of its bucket, none if it has no
/// bucket.
pub open spec fn keys_under(m: Map<u64, Seq<Seq<char>>>, h: u64) -> Seq<Seq<char>> {
    if m.dom().contains(h) {
        m[h]
    } else {
        Seq::empty()
    }
}

/// A list of keys without every occurrence of one key.
pub open spec fn without_key(s: Seq<Seq<char>>, k: Seq<char>) -> Seq<Seq<char>>
    decreases s.len(),
{
    if s.len() == 0 {
        Seq::empty()
    } else if s.last() == k {
        without_key(s.drop_last(), k)
    } else {
        without_key(s.drop_last(), k).push(s.last())
    }
}

/// The map after `k` was filed under `h`.
pub open spec fn filed(m: Map<u64, Seq<Seq<char>>>, h: u64, k: Seq<char>) -> Map<
    u64,
    Seq<Seq<char>>,
> {
    m.insert(h, keys_under(m, h).push(k))
}

/// The map after `k` was taken out from under `h`: the bucket goes when its
/// last key goes.
pub open spec fn unfiled(m: Map<u64, Seq<Seq<char>>>, h: u64, k: Seq<char>) -> Map<
    u64,
    Seq<Seq<char>>,
> {
    if !m.dom().contains(h) {
        m
    } else if without_key(m[h], k).len() == 0 {
        m.remove(h)
    } else {
        m.insert(h, without_key(m[h], k))
    }
}

/// The number of keys in all buckets together.
pub open spec fn entries_total(s: Seq<Bucket>) -> nat
    decreases s.len(),
{
    if s.len() == 0 {
        0
    } else {
        entries_total(s.drop_last()) + s.last().keys@.len()
    }
}

/// What `without_key` keeps: every key but `k`.
pub proof fn lemma_without_key_member(s: Seq<Seq<char>>, k: Seq<char>, x: Seq<char>)
    ensures
        without_key(s, k).contains(x) <==> s.contains(x) && x != k,
    decreases s.len(),
{
    if s.len() > 0 {
        let init = s.drop_last();
        let last = s.last();
        let w = without_key(s, k);
        let wi = without_key(init, k);
        lemma_without_key_member(init, k, x);
        if w.contains(x) {
            let j = choose|j: int| 0 <= j < w.len() && w[j] == x;
            if last != k && j == w.len() - 1 {
                assert(s[s.len() - 1] == x);
            } else {
                assert(wi[j] == x);
                assert(wi.contains(x));
                let i = choose|i: int| 0 <= i < init.len() && init[i] == x;
                assert(s[i] == x);
            }
        }
        if s.contains(x) && x != k {
            let i = choose|i: int| 0 <= i < s.len() && s[i] == x;
            if i < s.len() - 1 {
                assert(init[i] == x);
                assert(init.contains(x));
                let j = choose|j: int| 0 <= j < wi.len() && wi[j] == x;
                assert(w[j] == x);
            } else {
                assert(w[w.len() - 1] == x);
            }
        }
    }
}

/// `without_key` keeps the order and adds nothing: a list without
/// repetitions stays one, and a list without `k` stays as it is.
pub proof fn lemma_without_key(s: Seq<Seq<char>>, k: Seq<char>)
    ensures
        without_key(s, k).len() <= s.len(),
        s.no_duplicates() ==> without_key(s, k).no_duplicates(),
        !s.contains(k) ==> without_key(s, k) == s,
    decreases s.len(),
{
    if s.len() > 0 {
        let init = s.drop_last();
        let last = s.last();
        lemma_without_key(init, k);
        let w = without_key(s, k);
        let wi = without_key(init, k);
        assert(s == init.push(last));
        if s.no_duplicates() {
            assert(init.no_duplicates());
            if last != k {
                lemma_without_key_member(init, k, last);
                if wi.contains(last) {
                    let p = choose|p: int| 0 <= p < init.len() && init[p] == last;
                    assert(s[p] == s[s.len() - 1]);
                }
                assert forall|i: int, j: int| 0 <= i < w.len() && 0 <= j < w.len() && i
                    != j implies w[i] != w[j] by {
                    if i == w.len() - 1 {
                        if w[j] == last {
                            assert(wi[j] == last);
                        }
                    } else if j == w.len() - 1 {
                        if w[i] == last {
                            assert(wi[i] == last);
                        }
                    } else {
                        assert(wi[i] != wi[j]);
                    }
                }
            }
        }
        if !s.contains(k) {
            assert(last == s[s.len() - 1]);
            assert forall|i: int| 0 <= i < init.len() implies init[i] != k by {
                assert(s[i] == init[i]);
            }
            assert(!init.contains(k));
            assert(w == s);
        }
    }
}

/// In sorted buckets a hash stands at one position only, and the map holds
/// under it the keys of the bucket there.
pub proof fn lemma_buckets_lookup(s: Seq<Bucket>, i: int)
    requires
        buckets_sorted(s),
        0 <= i < s.len(),
    ensures
        buckets_view(s).dom().contains(s[i].hash),
        buckets_view(s)[s[i].hash] == keys_view(s[i].keys@),
        keys_under(buckets_view(s), s[i].hash) == keys_view(s[i].keys@),
{
    assert(has_hash(s, s[i].hash));
}

/// Sorted buckets are as many as their map has hashes.
pub proof fn lemma_buckets_len(s: Seq<Bucket>)
    requires
        buckets_sorted(s),
    ensures
        buckets_view(s).dom().finite(),
        buckets_view(s).dom().len() == s.len(),
    decreases s.len(),
{
    if s.len() == 0 {
        assert(buckets_view(s).dom() =~= Set::<u64>::empty());
    } else {
        let t = s.drop_last();
        lemma_buckets_len(t);
        assert forall|h: u64| buckets_view(s).dom().contains(h) <==> buckets_view(t).dom().insert(
            s.last().hash,
        ).contains(h) by {
            if has_hash(s, h) {
                let i = choose|i: int| 0 <= i < s.len() && (#[trigger] s[i]).hash == h;
                if i < s.len() - 1 {
                    assert(t[i].hash == h);
                }
            }
            if has_hash(t, h) {
                let i = choose|i: int| 0 <= i < t.len() && (#[trigger] t[i]).hash == h;
                assert(s[i].hash == h);
            }
            if h == s.last().hash {
                assert(s[s.len() - 1].hash == h);
            }
        }
        assert(buckets_view(s).dom() =~= buckets_view(t).dom().insert(s.last().hash));
        if has_hash(t, s.last().hash) {
            let i = choose|i: int| 0 <= i < t.len() && (#[trigger] t[i]).hash == s.last().hash;
            assert(s[i].hash == s[s.len() - 1].hash);
        }
    }
}

/// Where a hash stands among sorted buckets, or where it would have to go.
pub open spec fn is_hash_gap(s: Seq<Bucket>, h: u64, p: int) -> bool {
    &&& 0 <= p <= s.len()
    &&& forall|j: int| 0 <= j < p ==> (#[trigger] s[j]).hash < h
    &&& forall|j: int| p <= j < s.len() ==> h < (#[trigger] s[j]).hash
}

/// Looks a hash up among sorted buckets: `Ok` with its position, or `Err`
/// with the position at which a bucket for it would go.
pub fn find_bucket(buckets: &Vec<Bucket>, hash: u64) -> (r: Result<usize, usize>)
    requires
        buckets_sorted(buckets@),
    ensures
        match r {
            Ok(i) => i < buckets@.len() && buckets@[i as int].hash == hash,
            Err(p) => is_hash_gap(buckets@, hash, p as int) && !has_hash(buckets@, hash),
        },
{
    let mut lo: usize = 0;
    let mut hi: usize = buckets.len();
    while lo < hi
        invariant
            lo <= hi <= buckets.len(),
            buckets_sorted(buckets@),
            forall|j: int| 0 <= j < lo ==> (#[trigger] buckets@[j]).hash < hash,
            forall|j: int| hi <= j < buckets.len() ==> hash < (#[trigger] buckets@[j]).hash,
        decreases hi - lo,
    {
        let mid = lo + (hi - lo) / 2;
        let at = buckets[mid].hash;
        if at == hash {
            return Ok(mid);
        } else if at < hash {
            lo = mid + 1;
        } else {
            hi = mid;
        }
    }
    Err(lo)
}

/// A bucket put into its gap adds its hash to the map.
pub proof fn lemma_bucket_insert(s: Seq<Bucket>, p: int, b: Bucket)
    requires
        buckets_sorted(s),
        is_hash_gap(s, b.hash, p),
    ensures
        buckets_sorted(s.insert(p, b)),
        buckets_view(s.insert(p, b)) == buckets_view(s).insert(b.hash, keys_view(b.keys@)),
        entries_total(s.insert(p, b)) == entries_total(s) + b.keys@.len(),
        buckets_wf(s) && b.keys@.len() > 0 ==> buckets_wf(s.insert(p, b)),
{
    let t = s.insert(p, b);
    assert forall|i: int, j: int| 0 <= i < j < t.len() implies (#[trigger] t[i]).hash < (
    #[trigger] t[j]).hash by {
        lemma_insert_index(s, p, b, i);
        lemma_insert_index(s, p, b, j);
    }
    let x = buckets_view(t);
    let y = buckets_view(s).insert(b.hash, keys_view(b.keys@));
    assert forall|h: u64| x.dom().contains(h) <==> y.dom().contains(h) by {
        if has_hash(t, h) {
            let i = choose|i: int| 0 <= i < t.len() && (#[trigger] t[i]).hash == h;
            lemma_insert_index(s, p, b, i);
            if i < p {
                assert(s[i].hash == h);
            } else if i > p {
                assert(s[i - 1].hash == h);
            }
        }
        if y.dom().contains(h) {
            if h == b.hash {
                assert(t[p].hash == h);
            } else {
                let i = choose|i: int| 0 <= i < s.len() && (#[trigger] s[i]).hash == h;
                if i < p {
                    assert(t[i].hash == h);
                } else {
                    assert(t[i + 1].hash == h);
                }
            }
        }
    }
    assert forall|h: u64| x.dom().contains(h) implies x[h] == y[h] by {
        let i = choose|i: int| 0 <= i < t.len() && (#[trigger] t[i]).hash == h;
        lemma_buckets_lookup(t, i);
        lemma_insert_index(s, p, b, i);
        if i < p {
            lemma_buckets_lookup(s, i);
        } else if i > p {
            lemma_buckets_lookup(s, i - 1);
        }
    }
    assert(x =~= y);
    lemma_total_insert(s, p, b);
    if buckets_wf(s) && b.keys@.len() > 0 {
        assert forall|i: int| 0 <= i < t.len() implies (#[trigger] t[i]).keys@.len() > 0 by {
            lemma_insert_index(s, p, b, i);
        }
    }
}

proof fn lemma_insert_index(s: Seq<Bucket>, p: int, b: Bucket, i: int)
    requires
        0 <= p <= s.len(),
        0 <= i <= s.len(),
    ensures
        i < p ==> s.insert(p, b)[i] == s[i],
        i == p ==> s.insert(p, b)[i] == b,
        i > p ==> s.insert(p, b)[i] == s[i - 1],
{
}

proof fn lemma_total_insert(s: Seq<Bucket>, p: int, b: Bucket)
    requires
        0 <= p <= s.len(),
    ensures
        entries_total(s.insert(p, b)) == entries_total(s) + b.keys@.len(),
    decreases s.len() - p,
{
    let t = s.insert(p, b);
    if p == s.len() {
        assert(t.drop_last() == s);
    } else {
        assert(t.drop_last() == s.drop_last().insert(p, b));
        assert(t.last() == s.last());
        lemma_total_insert(s.drop_last(), p, b);
    }
}

proof fn lemma_total_update(s: Seq<Bucket>, p: int, b: Bucket)
    requires
        0 <= p < s.len(),
    ensures
        entries_total(s.update(p, b)) == entries_total(s) - s[p].keys@.len() + b.keys@.len(),
    decreases s.len() - p,
{
    let t = s.update(p, b);
    if p == s.len() - 1 {
        assert(t.drop_last() == s.drop_last());
    } else {
        assert(t.drop_last() == s.drop_last().update(p, b));
        assert(t.last() == s.last());
        lemma_total_update(s.drop_last(), p, b);
    }
}

proof fn lemma_total_remove(s: Seq<Bucket>, p: int)
    requires
        0 <= p < s.len(),
    ensures
        entries_total(s.remove(p)) == entries_total(s) - s[p].keys@.len(),
    decreases s.len() - p,
{
    let t = s.remove(p);
    if p == s.len() - 1 {
        assert(t == s.drop_last());
    } else {
        assert(t.drop_last() == s.drop_last().remove(p));
        assert(t.last() == s.last());
        lemma_total_remove(s.drop_last(), p);
    }
}

/// A bucket put in place of one with the same hash replaces its keys in the
/// map.
pub proof fn lemma_bucket_update(s: Seq<Bucket>, p: int, b: Bucket)
    requires
        buckets_sorted(s),
        0 <= p < s.len(),
        s[p].hash == b.hash,
    ensures
        buckets_sorted(s.update(p, b)),
        buckets_view(s.update(p, b)) == buckets_view(s).insert(b.hash, keys_view(b.keys@)),
        entries_total(s.update(p, b)) == entries_total(s) - s[p].keys@.len() + b.keys@.len(),
        buckets_wf(s) && b.keys@.len() > 0 ==> buckets_wf(s.update(p, b)),
{
    let t = s.update(p, b);
    assert forall|i: int, j: int| 0 <= i < j < t.len() implies (#[trigger] t[i]).hash < (
    #[trigger] t[j]).hash by {
        assert(t[i].hash == s[i].hash && t[j].hash == s[j].hash);
    }
    let x = buckets_view(t);
    let y = buckets_view(s).insert(b.hash, keys_view(b.keys@));
    assert forall|h: u64| x.dom().contains(h) <==> y.dom().contains(h) by {
        if has_hash(t, h) {
            let i = choose|i: int| 0 <= i < t.len() && (#[trigger] t[i]).hash == h;
            assert(s[i].hash == h);
        }
        if y.dom().contains(h) {
            if h == b.hash {
                assert(t[p].hash == h);
            } else {
                let i = choose|i: int| 0 <= i < s.len() && (#[trigger] s[i]).hash == h;
                assert(t[i].hash == h);
            }
        }
    }
    assert forall|h: u64| x.dom().contains(h) implies x[h] == y[h] by {
        let i = choose|i: int| 0 <= i < t.len() && (#[trigger] t[i]).hash == h;
        lemma_buckets_lookup(t, i);
        if i != p {
            lemma_buckets_lookup(s, i);
            assert(s[i].hash != s[p].hash);
        }
    }
    assert(x =~= y);
    lemma_total_update(s, p, b);
    if buckets_wf(s) && b.keys@.len() > 0 {
        assert forall|i: int| 0 <= i < t.len() implies (#[trigger] t[i]).keys@.len() > 0 by {
            if i != p {
                assert(t[i] == s[i]);
            }
        }
    }
}

/// A bucket taken out takes its hash out of the map.
pub proof fn lemma_bucket_remove(s: Seq<Bucket>, p: int)
    requires
        buckets_sorted(s),
        0 <= p < s.len(),
    ensures
        buckets_sorted(s.remove(p)),
        buckets_view(s.remove(p)) == buckets_view(s).remove(s[p].hash),
        entries_total(s.remove(p)) == entries_total(s) - s[p].keys@.len(),
        buckets_wf(s) ==> buckets_wf(s.remove(p)),
{
    let t = s.remove(p);
    assert forall|i: int| 0 <= i < t.len() implies (#[trigger] t[i]) == s[if i < p {
        i
    } else {
        i + 1
    }] by {}
    assert forall|i: int, j: int| 0 <= i < j < t.len() implies (#[trigger] t[i]).hash < (
    #[trigger] t[j]).hash by {
        let a = if i < p {
            i
        } else {
            i + 1
        };
        let b = if j < p {
            j
        } else {
            j + 1
        };
        assert(s[a].hash < s[b].hash);
    }
    let x = buckets_view(t);
    let y = buckets_view(s).remove(s[p].hash);
    assert forall|h: u64| x.dom().contains(h) <==> y.dom().contains(h) by {
        if has_hash(t, h) {
            let i = choose|i: int| 0 <= i < t.len() && (#[trigger] t[i]).hash == h;
            let a = if i < p {
                i
            } else {
                i + 1
            };
            assert(s[a].hash == h);
            assert(s[a].hash != s[p].hash);
        }
        if y.dom().contains(h) {
            let i = choose|i: int| 0 <= i < s.len() && (#[trigger] s[i]).hash == h;
            if i < p {
                assert(t[i].hash == h);
            } else {
                assert(t[i - 1].hash == h);
            }
        }
    }
    assert forall|h: u64| x.dom().contains(h) implies x[h] == y[h] by {
        let i = choose|i: int| 0 <= i < t.len() && (#[trigger] t[i]).hash == h;
        lemma_buckets_lookup(t, i);
        let a = if i < p {
            i
        } else {
            i + 1
        };
        lemma_buckets_lookup(s, a);
    }
    assert(x =~= y);
    lemma_total_remove(s, p);
}

/// The hash of `s` that is below every other hash of `s`.
pub open spec fn least_hash(s: Set<u64>) -> u64 {
    choose|h: u64| is_least_hash(s, h)
}

pub open spec fn is_least_hash(s: Set<u64>, h: u64) -> bool {
    s.contains(h) && forall|g: u64| s.contains(g) ==> h <= g
}

/// The hashes of a finite set, in rising order.
pub open spec fn sorted_hashes(s: Set<u64>) -> Seq<u64>
    decreases s.len(),
    when s.finite()
{
    if s.contains(least_hash(s)) {
        seq![least_hash(s)] + sorted_hashes(s.remove(least_hash(s)))
    } else {
        Seq::empty()
    }
}

/// The hashes of buckets, in their order.
pub open spec fn bucket_hashes(s: Seq<Bucket>) -> Seq<u64> {
    Seq::new(s.len(), |i: int| s[i].hash)
}

/// The hashes of sorted buckets are the sorted hashes of their map.
pub proof fn lemma_sorted_hashes_of_buckets(s: Seq<Bucket>)
    requires
        buckets_sorted(s),
    ensures
        sorted_hashes(buckets_view(s).dom()) == bucket_hashes(s),
    decreases s.len(),
{
    let d = buckets_view(s).dom();
    lemma_buckets_len(s);
    if s.len() > 0 {
        let first = s[0].hash;
        lemma_buckets_lookup(s, 0);
        assert forall|g: u64| d.contains(g) implies first <= g by {
            let i = choose|i: int| 0 <= i < s.len() && (#[trigger] s[i]).hash == g;
            if i > 0 {
                assert(s[0].hash < s[i].hash);
            }
        }
        assert(is_least_hash(d, first));
        let t = s.remove(0);
        lemma_bucket_remove(s, 0);
        lemma_sorted_hashes_of_buckets(t);
        assert(bucket_hashes(s) =~= seq![first] + bucket_hashes(t));
    }
}

/// The number of keys under the first `n` of `hashes`.
pub open spec fn entries_in(m: Map<u64, Seq<Seq<char>>>, hashes: Seq<u64>, n: int) -> nat
    decreases n,
{
    if n <= 0 || n > hashes.len() {
        0
    } else {
        entries_in(m, hashes, n - 1) + m[hashes[n - 1]].len()
    }
}

/// The number of keys that an index holds, over all its buckets.
pub open spec fn map_entries(m: Map<u64, Seq<Seq<char>>>) -> nat {
    entries_in(m, sorted_hashes(m.dom()), m.dom().len() as int)
}

proof fn lemma_entries_prefix(s: Seq<Bucket>, n: int)
    requires
        buckets_sorted(s),
        0 <= n <= s.len(),
    ensures
        entries_total(s.subrange(0, n)) == entries_in(buckets_view(s), bucket_hashes(s), n),
    decreases n,
{
    if n > 0 {
        lemma_entries_prefix(s, n - 1);
        lemma_buckets_lookup(s, n - 1);
        assert(s.subrange(0, n).drop_last() =~= s.subrange(0, n - 1));
        assert(s.subrange(0, n).last() == s[n - 1]);
    }
}

/// The keys of sorted buckets are as many as their map holds.
pub proof fn lemma_entries_total(s: Seq<Bucket>)
    requires
        buckets_sorted(s),
    ensures
        entries_total(s) == map_entries(buckets_view(s)),
{
    lemma_buckets_len(s);
    lemma_sorted_hashes_of_buckets(s);
    lemma_entries_prefix(s, s.len() as int);
    assert(s.subrange(0, s.len() as int) =~= s);
}

/// Files a key under a hash, at the end of its bucket.
pub fn file_key(buckets: &mut Vec<Bucket>, hash: u64, key: String)
    requires
        buckets_wf(old(buckets)@),
    ensures
        buckets_wf(final(buckets)@),
        buckets_view(final(buckets)@) == filed(buckets_view(old(buckets)@), hash, key@),
        entries_total(final(buckets)@) == entries_total(old(buckets)@) + 1,
{
    match find_bucket(buckets, hash) {
        Ok(i) => {
            let ghost before = buckets@;
            let mut bucket = buckets.remove(i);
            proof {
                lemma_buckets_lookup(before, i as int);
                lemma_bucket_remove(before, i as int);
            }
            let ghost old_keys = bucket.keys@;
            bucket.keys.push(key);
            proof {
                assert(keys_view(bucket.keys@) =~= keys_view(old_keys).push(key@));
                assert(is_hash_gap(buckets@, hash, i as int)) by {
                    assert forall|j: int| 0 <= j < i implies (#[trigger] buckets@[j]).hash
                        < hash by {
                        assert(buckets@[j] == before[j]);
                    }
                    assert forall|j: int| i <= j < buckets@.len() implies hash < (
                    #[trigger] buckets@[j]).hash by {
                        assert(buckets@[j] == before[j + 1]);
                    }
                }
                lemma_bucket_insert(buckets@, i as int, bucket);
                assert(buckets_view(before).remove(hash).insert(hash, keys_view(bucket.keys@))
                    =~= filed(buckets_view(before), hash, key@));
            }
            buckets.insert(i, bucket);
        },
        Err(p) => {
            let mut keys: Vec<String> = Vec::new();
            keys.push(key);
            let bucket = Bucket { hash, keys };
            proof {
                assert(keys_view(bucket.keys@) =~= Seq::<Seq<char>>::empty().push(key@));
                lemma_bucket_insert(buckets@, p as int, bucket);
                assert(entries_total(buckets@.insert(p as int, bucket)) == entries_total(buckets@)
                    + 1);
            }
            buckets.insert(p, bucket);
        },
    }
}

/// The keys of `keys` that are not `key`, in order.
pub fn keys_without(keys: &Vec<String>, key: &str) -> (r: Vec<String>)
    ensures
        keys_view(r@) == without_key(keys_view(keys@), key@),
{
    let mut out: Vec<String> = Vec::new();
    let mut i: usize = 0;
    assert(keys_view(keys@).subrange(0, 0) == Seq::<Seq<char>>::empty());
    while i < keys.len()
        invariant
            i <= keys.len(),
            keys_view(out@) == without_key(keys_view(keys@).subrange(0, i as int), key@),
        decreases keys.len() - i,
    {
        let ghost prefix = keys_view(keys@).subrange(0, i + 1);
        proof {
            assert(prefix.drop_last() == keys_view(keys@).subrange(0, i as int));
            assert(prefix.last() == keys@[i as int]@);
        }
        if same_key(keys[i].as_str(), key) {
            proof {
                assert(keys_view(out@) == without_key(prefix, key@));
            }
        } else {
            let ghost before = out@;
            out.push(keys[i].clone());
            proof {
                assert(keys_view(out@) =~= keys_view(before).push(keys@[i as int]@));
            }
        }
        i += 1;
    }
    proof {
        assert(keys_view(keys@).subrange(0, keys@.len() as int) == keys_view(keys@));
    }
    out
}

/// Takes every occurrence of a key out from under a hash. The bucket goes
/// when its last key goes.
pub fn unfile_key(buckets: &mut Vec<Bucket>, hash: u64, key: &str)
    requires
        buckets_wf(old(buckets)@),
    ensures
        buckets_wf(final(buckets)@),
        buckets_view(final(buckets)@) == unfiled(buckets_view(old(buckets)@), hash, key@),
        entries_total(final(buckets)@) == entries_total(old(buckets)@) - keys_under(
            buckets_view(old(buckets)@),
            hash,
        ).len() + keys_under(buckets_view(final(buckets)@), hash).len(),
{
    match find_bucket(buckets, hash) {
        Ok(i) => {
            let ghost before = buckets@;
            proof {
                lemma_buckets_lookup(before, i as int);
                lemma_bucket_remove(before, i as int);
            }
            let kept = keys_without(&buckets[i].keys, key);
            if kept.len() == 0 {
                let gone = buckets.remove(i);
                proof {
                    assert(!has_hash(buckets@, hash)) by {
                        if has_hash(buckets@, hash) {
                            assert(buckets_view(buckets@).dom().contains(hash));
                        }
                    }
                }
            } else {
                let bucket = Bucket { hash, keys: kept };
                proof {
                    lemma_bucket_update(before, i as int, bucket);
                    lemma_buckets_lookup(before.update(i as int, bucket), i as int);
                }
                buckets.set(i, bucket);
            }
        },
        Err(p) => {},
    }
}

} // verus!
