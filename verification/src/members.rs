//! Members kept in key order: the one container behind objects and behind
//! the records of a store. Looking a key up is a binary search.

use vstd::prelude::*;
use crate::keys::{key_lt, compare_keys, KeyOrder, lemma_key_lt_total, lemma_key_lt_transitive};
use crate::value::{
    Member,
    Value,
    has_key,
    members_sorted,
    members_view,
    members_wf,
    value_wf,
    lemma_members_lookup,
    lemma_sorted_keys_distinct,
};

verus! {

/// Where a key stands among sorted members, or where it would have to go.
#[derive(Clone, Copy, Debug, PartialEq, Eq, Structural)]
pub enum Slot {
    Found(usize),
    Vacant(usize),
}

/// `p` is the one place at which a member with the key `k` can be put into
/// `s` without breaking the order.
pub open spec fn is_gap(s: Seq<Member>, k: Seq<char>, p: int) -> bool {
    &&& 0 <= p <= s.len()
    &&& forall|j: int| 0 <= j < p ==> key_lt((#[trigger] s[j]).key@, k)
    &&& forall|j: int| p <= j < s.len() ==> key_lt(k, (#[trigger] s[j]).key@)
}

/// A key with a gap of its own is the key of no member.
pub proof fn lemma_gap_absent(s: Seq<Member>, k: Seq<char>, p: int)
    requires
        is_gap(s, k, p),
    ensures
        !has_key(s, k),
        !members_view(s).dom().contains(k),
{
    assert forall|i: int| 0 <= i < s.len() implies (#[trigger] s[i]).key@ != k by {
        lemma_key_lt_total(s[i].key@, k);
    }
}

/// Putting a new member into its gap adds its key to the map.
pub proof fn lemma_insert_view(s: Seq<Member>, p: int, m: Member)
    requires
        members_sorted(s),
        is_gap(s, m.key@, p),
    ensures
        members_sorted(s.insert(p, m)),
        members_view(s.insert(p, m)) == members_view(s).insert(m.key@, m.value@),
        members_wf(s) && value_wf(m.value) ==> members_wf(s.insert(p, m)),
{
    let t = s.insert(p, m);
    assert forall|i: int, j: int| 0 <= i < j < t.len() implies key_lt(
        (#[trigger] t[i]).key@,
        (#[trigger] t[j]).key@,
    ) by {
        if i < p && j == p {
            assert(t[i] == s[i]);
        } else if i < p && j > p {
            assert(t[i] == s[i] && t[j] == s[j - 1]);
        } else if i == p {
            assert(t[j] == s[j - 1]);
        } else if i > p {
            assert(t[i] == s[i - 1] && t[j] == s[j - 1]);
        } else {
            assert(t[i] == s[i] && t[j] == s[j]);
        }
    }
    let a = members_view(t);
    let b = members_view(s).insert(m.key@, m.value@);
    assert forall|k: Seq<char>| a.dom().contains(k) <==> b.dom().contains(k) by {
        if a.dom().contains(k) {
            let i = choose|i: int| 0 <= i < t.len() && (#[trigger] t[i]).key@ == k;
            if i < p {
                assert(s[i].key@ == k);
            } else if i > p {
                assert(s[i - 1].key@ == k);
            }
        }
        if b.dom().contains(k) {
            if k == m.key@ {
                assert(t[p].key@ == k);
            } else {
                let i = choose|i: int| 0 <= i < s.len() && (#[trigger] s[i]).key@ == k;
                if i < p {
                    assert(t[i].key@ == k);
                } else {
                    assert(t[i + 1].key@ == k);
                }
            }
        }
    }
    assert forall|k: Seq<char>| a.dom().contains(k) implies a[k] == b[k] by {
        let i = choose|i: int| 0 <= i < t.len() && (#[trigger] t[i]).key@ == k;
        lemma_members_lookup(t, i);
        if i < p {
            lemma_members_lookup(s, i);
            lemma_key_lt_total(s[i].key@, m.key@);
        } else if i > p {
            lemma_members_lookup(s, i - 1);
            lemma_key_lt_total(s[i - 1].key@, m.key@);
        }
    }
    assert(a =~= b);
    if members_wf(s) && value_wf(m.value) {
        assert forall|i: int| 0 <= i < t.len() implies value_wf((#[trigger] t[i]).value) by {
            if i < p {
                assert(t[i] == s[i]);
            } else if i > p {
                assert(t[i] == s[i - 1]);
            }
        }
    }
}

/// Replacing the member at `p` by one of the same key replaces its value in
/// the map.
pub proof fn lemma_update_view(s: Seq<Member>, p: int, m: Member)
    requires
        members_sorted(s),
        0 <= p < s.len(),
        s[p].key@ == m.key@,
    ensures
        members_sorted(s.update(p, m)),
        members_view(s.update(p, m)) == members_view(s).insert(m.key@, m.value@),
        members_wf(s) && value_wf(m.value) ==> members_wf(s.update(p, m)),
{
    let t = s.update(p, m);
    assert forall|i: int, j: int| 0 <= i < j < t.len() implies key_lt(
        (#[trigger] t[i]).key@,
        (#[trigger] t[j]).key@,
    ) by {
        assert(t[i].key@ == s[i].key@ && t[j].key@ == s[j].key@);
    }
    let a = members_view(t);
    let b = members_view(s).insert(m.key@, m.value@);
    assert forall|k: Seq<char>| a.dom().contains(k) <==> b.dom().contains(k) by {
        if a.dom().contains(k) {
            let i = choose|i: int| 0 <= i < t.len() && (#[trigger] t[i]).key@ == k;
            assert(s[i].key@ == k);
        }
        if b.dom().contains(k) {
            if k == m.key@ {
                assert(t[p].key@ == k);
            } else {
                let i = choose|i: int| 0 <= i < s.len() && (#[trigger] s[i]).key@ == k;
                assert(t[i].key@ == k);
            }
        }
    }
    assert forall|k: Seq<char>| a.dom().contains(k) implies a[k] == b[k] by {
        let i = choose|i: int| 0 <= i < t.len() && (#[trigger] t[i]).key@ == k;
        lemma_members_lookup(t, i);
        if i != p {
            lemma_members_lookup(s, i);
            if s[i].key@ == s[p].key@ {
                lemma_sorted_keys_distinct(s, i, p);
            }
        }
    }
    assert(a =~= b);
    if members_wf(s) && value_wf(m.value) {
        assert forall|i: int| 0 <= i < t.len() implies value_wf((#[trigger] t[i]).value) by {
            if i != p {
                assert(t[i] == s[i]);
            }
        }
    }
}

/// Taking the member at `p` out takes its key out of the map.
pub proof fn lemma_remove_view(s: Seq<Member>, p: int)
    requires
        members_sorted(s),
        0 <= p < s.len(),
    ensures
        members_sorted(s.remove(p)),
        members_view(s.remove(p)) == members_view(s).remove(s[p].key@),
        members_wf(s) ==> members_wf(s.remove(p)),
{
    let t = s.remove(p);
    assert forall|i: int, j: int| 0 <= i < j < t.len() implies key_lt(
        (#[trigger] t[i]).key@,
        (#[trigger] t[j]).key@,
    ) by {
        if j < p {
            assert(t[i] == s[i] && t[j] == s[j]);
        } else if i < p {
            assert(t[i] == s[i] && t[j] == s[j + 1]);
        } else {
            assert(t[i] == s[i + 1] && t[j] == s[j + 1]);
        }
    }
    let a = members_view(t);
    let b = members_view(s).remove(s[p].key@);
    assert forall|k: Seq<char>| a.dom().contains(k) <==> b.dom().contains(k) by {
        if a.dom().contains(k) {
            let i = choose|i: int| 0 <= i < t.len() && (#[trigger] t[i]).key@ == k;
            if i < p {
                assert(s[i].key@ == k);
                if k == s[p].key@ {
                    lemma_sorted_keys_distinct(s, i, p);
                }
            } else {
                assert(s[i + 1].key@ == k);
                if k == s[p].key@ {
                    lemma_sorted_keys_distinct(s, i + 1, p);
                }
            }
        }
        if b.dom().contains(k) {
            let i = choose|i: int| 0 <= i < s.len() && (#[trigger] s[i]).key@ == k;
            if i < p {
                assert(t[i].key@ == k);
            } else {
                assert(t[i - 1].key@ == k);
            }
        }
    }
    assert forall|k: Seq<char>| a.dom().contains(k) implies a[k] == b[k] by {
        let i = choose|i: int| 0 <= i < t.len() && (#[trigger] t[i]).key@ == k;
        lemma_members_lookup(t, i);
        if i < p {
            lemma_members_lookup(s, i);
        } else {
            lemma_members_lookup(s, i + 1);
        }
    }
    assert(a =~= b);
    if members_wf(s) {
        assert forall|i: int| 0 <= i < t.len() implies value_wf((#[trigger] t[i]).value) by {
            if i < p {
                assert(t[i] == s[i]);
            } else {
                assert(t[i] == s[i + 1]);
            }
        }
    }
}

/// Sorted members are as many as their map has keys.
pub proof fn lemma_members_len(s: Seq<Member>)
    requires
        members_sorted(s),
    ensures
        members_view(s).dom().finite(),
        members_view(s).dom().len() == s.len(),
    decreases s.len(),
{
    if s.len() == 0 {
        assert(members_view(s).dom() =~= Set::<Seq<char>>::empty());
    } else {
        let p = s.len() - 1;
        let t = s.remove(p);
        lemma_remove_view(s, p);
        lemma_members_len(t);
        lemma_members_lookup(s, p);
        assert(members_view(s).dom() =~= members_view(t).dom().insert(s[p].key@));
    }
}

/// Looks a key up among sorted members.
pub fn find_key(m: &Vec<Member>, key: &str) -> (r: Slot)
    requires
        members_sorted(m@),
    ensures
        match r {
            Slot::Found(i) => i < m@.len() && m@[i as int].key@ == key@,
            Slot::Vacant(p) => is_gap(m@, key@, p as int),
        },
{
    let mut lo: usize = 0;
    let mut hi: usize = m.len();
    while lo < hi
        invariant
            lo <= hi <= m.len(),
            members_sorted(m@),
            forall|j: int| 0 <= j < lo ==> key_lt((#[trigger] m@[j]).key@, key@),
            forall|j: int| hi <= j < m.len() ==> key_lt(key@, (#[trigger] m@[j]).key@),
        decreases hi - lo,
    {
        let mid = lo + (hi - lo) / 2;
        match compare_keys(m[mid].key.as_str(), key) {
            KeyOrder::Same => {
                return Slot::Found(mid);
            },
            KeyOrder::Before => {
                proof {
                    assert forall|j: int| 0 <= j < mid + 1 implies key_lt(
                        (#[trigger] m@[j]).key@,
                        key@,
                    ) by {
                        if j < mid {
                            lemma_key_lt_transitive(m@[j].key@, m@[mid as int].key@, key@);
                        }
                    }
                }
                lo = mid + 1;
            },
            KeyOrder::After => {
                proof {
                    assert forall|j: int| mid <= j < m.len() implies key_lt(
                        key@,
                        (#[trigger] m@[j]).key@,
                    ) by {
                        if j > mid {
                            lemma_key_lt_transitive(key@, m@[mid as int].key@, m@[j].key@);
                        }
                    }
                }
                hi = mid;
            },
        }
    }
    Slot::Vacant(lo)
}

/// The value under a key, if the key is there.
pub fn get_member<'a>(m: &'a Vec<Member>, key: &str) -> (r: Option<&'a Value>)
    requires
        members_sorted(m@),
    ensures
        r is Some <==> members_view(m@).dom().contains(key@),
        r matches Some(v) ==> v@ == members_view(m@)[key@] && has_key(m@, key@) && exists|i: int|
            0 <= i < m@.len() && (#[trigger] m@[i]).key@ == key@ && m@[i].value == *v,
{
    match find_key(m, key) {
        Slot::Found(i) => {
            proof {
                lemma_members_lookup(m@, i as int);
            }
            Some(&m[i].value)
        },
        Slot::Vacant(p) => {
            proof {
                lemma_gap_absent(m@, key@, p as int);
            }
            None
        },
    }
}

/// Puts a value under a key, in place of the one that was there if there was
/// one. Returns whether the key was there before.
pub fn put_member(m: &mut Vec<Member>, key: String, value: Value) -> (was_there: bool)
    requires
        members_sorted(old(m)@),
    ensures
        members_sorted(final(m)@),
        members_view(final(m)@) == members_view(old(m)@).insert(key@, value@),
        members_wf(old(m)@) && value.wf() ==> members_wf(final(m)@),
        was_there == members_view(old(m)@).dom().contains(key@),
        final(m)@.len() == old(m)@.len() + if was_there { 0int } else { 1int },
{
    let slot = find_key(m, key.as_str());
    let member = Member { key, value };
    match slot {
        Slot::Found(i) => {
            proof {
                lemma_update_view(m@, i as int, member);
                lemma_members_lookup(m@, i as int);
            }
            m.set(i, member);
            true
        },
        Slot::Vacant(p) => {
            proof {
                lemma_insert_view(m@, p as int, member);
                lemma_gap_absent(m@, member.key@, p as int);
            }
            m.insert(p, member);
            false
        },
    }
}

/// Takes the member under a key out and returns its value, if the key is
/// there.
pub fn take_member(m: &mut Vec<Member>, key: &str) -> (r: Option<Value>)
    requires
        members_sorted(old(m)@),
    ensures
        members_sorted(final(m)@),
        members_view(final(m)@) == members_view(old(m)@).remove(key@),
        members_wf(old(m)@) ==> members_wf(final(m)@),
        r is Some <==> members_view(old(m)@).dom().contains(key@),
        r matches Some(v) ==> v@ == members_view(old(m)@)[key@] && (members_wf(old(m)@)
            ==> v.wf()),
        final(m)@.len() == old(m)@.len() - if r is Some { 1int } else { 0int },
{
    match find_key(m, key) {
        Slot::Found(i) => {
            proof {
                lemma_remove_view(m@, i as int);
                lemma_members_lookup(m@, i as int);
            }
            let member = m.remove(i);
            Some(member.value)
        },
        Slot::Vacant(p) => {
            proof {
                lemma_gap_absent(m@, key@, p as int);
                assert(members_view(m@) =~= members_view(m@).remove(key@));
            }
            None
        },
    }
}

} // verus!
