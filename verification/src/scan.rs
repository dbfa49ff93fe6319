//! Searches that look at every record: by part of a text field, by the
//! values of several fields at once, and for the values that a field takes.
//! They take the name of an index and do not use it.

use vstd::prelude::*;
use crate::buckets::keys_view;
use crate::hash_index::HashIndex;
use crate::path::{extract_field_value, json_at};
use crate::value::{
    members_view, members_wf, values_view, values_wf, Json, Member, Value, lemma_members_lookup,
    lemma_sorted_keys_distinct,
};

verus! {

/// The lower-case form of a text.
pub uninterp spec fn lowercase_text(s: Seq<char>) -> Seq<char>;

/// The needle stands somewhere in the text.
pub open spec fn contains_text(text: Seq<char>, needle: Seq<char>) -> bool {
    exists|i: int|
        0 <= i && i + needle.len() <= text.len() && #[trigger] text.subrange(
            i,
            i + needle.len(),
        ) == needle
}

/// Turns a text to lower case with `str::to_lowercase` of `std`. The result
/// is a function of the text alone; which function, this library takes from
/// `std`.
#[verifier::external_body]
pub(crate) fn to_lowercase(s: &str) -> (r: String)
    ensures
        r@ == lowercase_text(s@),
{
    s.to_lowercase()
}

/// Looks for a needle in a text with `str::contains` of `std`, which says
/// whether the needle matches a part of the text.
#[verifier::external_body]
fn contains(text: &str, needle: &str) -> (r: bool)
    ensures
        r == contains_text(text@, needle@),
{
    text.contains(needle)
}

/// Whether a text, taken in lower case, is the expected text.
pub fn lowercase_is(text: &str, expected: &str) -> (r: bool)
    ensures
        r == (lowercase_text(text@) == expected@),
{
    let lower = to_lowercase(text);
    crate::text::same_text(lower.as_str(), expected)
}

/// The field at `path` of `j` is a text that holds the needle, both taken in
/// lower case.
pub open spec fn field_holds(j: Json, path: Seq<char>, needle: Seq<char>) -> bool {
    match json_at(j, path) {
        Some(Json::String(s)) => contains_text(lowercase_text(s), lowercase_text(needle)),
        _ => false,
    }
}

/// The field at `path` of `j` is there and is the value `expected`.
pub open spec fn field_is(j: Json, path: Seq<char>, expected: Json) -> bool {
    json_at(j, path) == Some(expected)
}

/// Each of the given fields of `j` is there and is the value given for it.
pub open spec fn fields_are(j: Json, wanted: Seq<(String, Value)>) -> bool {
    forall|i: int| 0 <= i < wanted.len() ==> field_is(j, (#[trigger] wanted[i]).0@, wanted[i].1@)
}

/// The position of the first record from `from` on in which the field at
/// `path` is the value `j`; the number of records if there is none.
pub open spec fn first_with(s: Seq<Member>, path: Seq<char>, j: Json, from: int) -> int
    decreases s.len() - from,
{
    if from < 0 || from >= s.len() {
        s.len() as int
    } else if json_at(s[from].value@, path) == Some(j) {
        from
    } else {
        first_with(s, path, j, from + 1)
    }
}

/// The values come in the order in which they first come up in the records.
pub open spec fn in_order_of_first(s: Seq<Member>, path: Seq<char>, values: Seq<Json>) -> bool {
    forall|a: int, b: int|
        0 <= a < b < values.len() ==> first_with(s, path, #[trigger] values[a], 0) < first_with(
            s,
            path,
            #[trigger] values[b],
            0,
        )
}

proof fn lemma_first_with(s: Seq<Member>, path: Seq<char>, j: Json, from: int, at: int)
    requires
        0 <= from <= at < s.len(),
        forall|p: int| from <= p < at ==> json_at((#[trigger] s[p]).value@, path) != Some(j),
        json_at(s[at].value@, path) == Some(j),
    ensures
        first_with(s, path, j, from) == at,
    decreases at - from,
{
    if from < at {
        assert(json_at(s[from].value@, path) != Some(j));
        lemma_first_with(s, path, j, from + 1, at);
    }
}

/// The keys stand in strictly rising order.
pub open spec fn keys_rising(keys: Seq<Seq<char>>) -> bool {
    forall|i: int, j: int|
        0 <= i < j < keys.len() ==> crate::keys::key_lt(#[trigger] keys[i], #[trigger] keys[j])
}

/// The keys of the records at the positions `picked`, which are exactly the
/// positions of the records that `pred` holds of, are exactly the keys of
/// the records that `pred` holds of, none twice.
pub proof fn lemma_picked_keys(
    s: Seq<Member>,
    out: Seq<String>,
    picked: Seq<int>,
    pred: spec_fn(Json) -> bool,
)
    requires
        crate::value::members_sorted(s),
        out.len() == picked.len(),
        forall|j: int|
            0 <= j < picked.len() ==> 0 <= #[trigger] picked[j] < s.len() && out[j]@
                == s[picked[j]].key@ && pred(s[picked[j]].value@),
        forall|a: int, b: int| 0 <= a < b < picked.len() ==> picked[a] < picked[b],
        forall|p: int| 0 <= p < s.len() && pred((#[trigger] s[p]).value@) ==> picked.contains(p),
    ensures
        keys_view(out).no_duplicates(),
        forall|k: Seq<char>|
            keys_view(out).contains(k) <==> members_view(s).dom().contains(k) && pred(
                members_view(s)[k],
            ),
        keys_rising(keys_view(out)),
{
    let names = keys_view(out);
    assert forall|a: int, b: int| 0 <= a < b < names.len() implies crate::keys::key_lt(
        #[trigger] names[a],
        #[trigger] names[b],
    ) by {
        assert(picked[a] < picked[b]);
        assert(crate::keys::key_lt(s[picked[a]].key@, s[picked[b]].key@));
    }
    assert forall|a: int, b: int| 0 <= a < names.len() && 0 <= b < names.len() && a
        != b implies names[a] != names[b] by {
        assert(picked[a] != picked[b]);
        if s[picked[a]].key@ == s[picked[b]].key@ {
            lemma_sorted_keys_distinct(s, picked[a], picked[b]);
        }
    }
    assert forall|k: Seq<char>| names.contains(k) <==> members_view(s).dom().contains(k) && pred(
        members_view(s)[k],
    ) by {
        if names.contains(k) {
            let j = choose|j: int| 0 <= j < names.len() && names[j] == k;
            lemma_members_lookup(s, picked[j]);
        }
        if members_view(s).dom().contains(k) && pred(members_view(s)[k]) {
            let p = choose|p: int| 0 <= p < s.len() && (#[trigger] s[p]).key@ == k;
            lemma_members_lookup(s, p);
            assert(picked.contains(p));
            let j = choose|j: int| 0 <= j < picked.len() && picked[j] == p;
            assert(names[j] == k);
        }
    }
}

fn field_has_part(value: &Value, field: &str, needle_lower: &str, Ghost(needle): Ghost<Seq<char>>)
    -> (r: bool)
    requires
        value.wf(),
        needle_lower@ == lowercase_text(needle),
    ensures
        r == field_holds(value@, field@, needle),
{
    match extract_field_value(value, field) {
        Some(Value::String(s)) => {
            let lower = to_lowercase(s.as_str());
            contains(lower.as_str(), needle_lower)
        },
        _ => false,
    }
}

fn fields_match(value: &Value, field_values: &Vec<(String, Value)>) -> (r: bool)
    requires
        value.wf(),
        forall|i: int| 0 <= i < field_values@.len() ==> (#[trigger] field_values@[i]).1.wf(),
    ensures
        r == fields_are(value@, field_values@),
{
    let mut i: usize = 0;
    while i < field_values.len()
        invariant
            i <= field_values.len(),
            value.wf(),
            forall|k: int| 0 <= k < field_values@.len() ==> (#[trigger] field_values@[k]).1.wf(),
            forall|k: int|
                0 <= k < i ==> field_is(
                    value@,
                    (#[trigger] field_values@[k]).0@,
                    field_values@[k].1@,
                ),
        decreases field_values.len() - i,
    {
        let same = match extract_field_value(value, field_values[i].0.as_str()) {
            Some(found) => found.equals(&field_values[i].1),
            None => false,
        };
        if !same {
            return false;
        }
        i += 1;
    }
    true
}

impl HashIndex {
    /// The keys of the records in which the field at a dotted path is a text
    /// that holds `substring`, both taken in lower case; in key order.
    pub fn find_partial(
        &self,
        index_name: &str,
        field: &str,
        substring: &str,
        storage: &Vec<Member>,
    ) -> (r: Vec<String>)
        requires
            members_wf(storage@),
        ensures
            keys_view(r@).no_duplicates(),
            forall|k: Seq<char>|
                keys_view(r@).contains(k) <==> members_view(storage@).dom().contains(k)
                    && field_holds(members_view(storage@)[k], field@, substring@),
            keys_rising(keys_view(r@)),
    {
        let needle = to_lowercase(substring);
        let mut out: Vec<String> = Vec::new();
        let mut picked: Ghost<Seq<int>> = Ghost(Seq::empty());
        let ghost pred = |j: Json| field_holds(j, field@, substring@);
        let mut i: usize = 0;
        while i < storage.len()
            invariant
                i <= storage.len(),
                members_wf(storage@),
                needle@ == lowercase_text(substring@),
                pred == |j: Json| field_holds(j, field@, substring@),
                out@.len() == picked@.len(),
                forall|j: int|
                    0 <= j < picked@.len() ==> 0 <= #[trigger] picked@[j] < i && out@[j]@
                        == storage@[picked@[j]].key@ && pred(storage@[picked@[j]].value@),
                forall|a: int, b: int| 0 <= a < b < picked@.len() ==> picked@[a] < picked@[b],
                forall|p: int|
                    0 <= p < i && pred((#[trigger] storage@[p]).value@) ==> picked@.contains(p),
            decreases storage.len() - i,
        {
            if field_has_part(&storage[i].value, field, needle.as_str(), Ghost(substring@)) {
                out.push(storage[i].key.clone());
                proof {
                    let before = picked@;
                    picked@ = before.push(i as int);
                    assert forall|p: int|
                        0 <= p < i + 1 && pred((#[trigger] storage@[p]).value@) implies picked@.contains(
                        p,
                    ) by {
                        if p < i {
                            assert(before.contains(p));
                            let j = choose|j: int| 0 <= j < before.len() && before[j] == p;
                            assert(picked@[j] == p);
                        } else {
                            assert(picked@[before.len() as int] == p);
                        }
                    }
                }
            }
            i += 1;
        }
        proof {
            lemma_picked_keys(storage@, out@, picked@, pred);
        }
        out
    }

    /// The keys of the records in which each of the given fields is there
    /// and is the value given for it; in key order.
    pub fn find_multi(
        &self,
        index_name: &str,
        field_values: &Vec<(String, Value)>,
        storage: &Vec<Member>,
    ) -> (r: Vec<String>)
        requires
            members_wf(storage@),
            forall|i: int| 0 <= i < field_values@.len() ==> (#[trigger] field_values@[i]).1.wf(),
        ensures
            keys_view(r@).no_duplicates(),
            forall|k: Seq<char>|
                keys_view(r@).contains(k) <==> members_view(storage@).dom().contains(k)
                    && fields_are(members_view(storage@)[k], field_values@),
            keys_rising(keys_view(r@)),
    {
        let mut out: Vec<String> = Vec::new();
        let mut picked: Ghost<Seq<int>> = Ghost(Seq::empty());
        let ghost pred = |j: Json| fields_are(j, field_values@);
        let mut i: usize = 0;
        while i < storage.len()
            invariant
                i <= storage.len(),
                members_wf(storage@),
                forall|k: int|
                    0 <= k < field_values@.len() ==> (#[trigger] field_values@[k]).1.wf(),
                pred == |j: Json| fields_are(j, field_values@),
                out@.len() == picked@.len(),
                forall|j: int|
                    0 <= j < picked@.len() ==> 0 <= #[trigger] picked@[j] < i && out@[j]@
                        == storage@[picked@[j]].key@ && pred(storage@[picked@[j]].value@),
                forall|a: int, b: int| 0 <= a < b < picked@.len() ==> picked@[a] < picked@[b],
                forall|p: int|
                    0 <= p < i && pred((#[trigger] storage@[p]).value@) ==> picked@.contains(p),
            decreases storage.len() - i,
        {
            if fields_match(&storage[i].value, field_values) {
                out.push(storage[i].key.clone());
                proof {
                    let before = picked@;
                    picked@ = before.push(i as int);
                    assert forall|p: int|
                        0 <= p < i + 1 && pred((#[trigger] storage@[p]).value@) implies picked@.contains(
                        p,
                    ) by {
                        if p < i {
                            assert(before.contains(p));
                            let j = choose|j: int| 0 <= j < before.len() && before[j] == p;
                            assert(picked@[j] == p);
                        } else {
                            assert(picked@[before.len() as int] == p);
                        }
                    }
                }
            }
            i += 1;
        }
        proof {
            lemma_picked_keys(storage@, out@, picked@, pred);
        }
        out
    }

    /// The values that the field at a dotted path takes in the records, each
    /// once, in the order in which they first come up as the records are
    /// gone through in key order.
    pub fn list_field_values(&self, index_name: &str, field: &str, storage: &Vec<Member>) -> (r:
        Vec<Value>)
        requires
            members_wf(storage@),
        ensures
            values_wf(r@),
            values_view(r@).no_duplicates(),
            forall|j: Json|
                values_view(r@).contains(j) <==> exists|p: int|
                    0 <= p < storage@.len() && json_at((#[trigger] storage@[p]).value@, field@)
                        == Some(j),
            in_order_of_first(storage@, field@, values_view(r@)),
    {
        let mut out: Vec<Value> = Vec::new();
        let mut i: usize = 0;
        while i < storage.len()
            invariant
                i <= storage.len(),
                members_wf(storage@),
                values_wf(out@),
                values_view(out@).no_duplicates(),
                forall|j: Json|
                    values_view(out@).contains(j) <==> exists|p: int|
                        0 <= p < i && json_at((#[trigger] storage@[p]).value@, field@) == Some(j),
                forall|a: int|
                    0 <= a < out@.len() ==> first_with(
                        storage@,
                        field@,
                        #[trigger] values_view(out@)[a],
                        0,
                    ) < i,
                in_order_of_first(storage@, field@, values_view(out@)),
            decreases storage.len() - i,
        {
            let ghost seen = values_view(out@);
            match extract_field_value(&storage[i].value, field) {
                Some(found) => {
                    let mut known = false;
                    let mut k: usize = 0;
                    while k < out.len() && !known
                        invariant
                            k <= out.len(),
                            values_wf(out@),
                            found.wf(),
                            known ==> values_view(out@).contains(found@),
                            !known ==> forall|x: int| 0 <= x < k ==> values_view(out@)[x] != found@,
                        decreases out.len() - k + if known { 0int } else { 1int },
                    {
                        if out[k].equals(found) {
                            known = true;
                            assert(values_view(out@)[k as int] == found@);
                        } else {
                            k += 1;
                        }
                    }
                    if !known {
                        out.push(found.deep_clone());
                        proof {
                            let now = values_view(out@);
                            assert(now =~= seen.push(found@));
                            assert forall|p: int| 0 <= p < i implies json_at(
                                (#[trigger] storage@[p]).value@,
                                field@,
                            ) != Some(found@) by {
                                if json_at(storage@[p].value@, field@) == Some(found@) {
                                    assert(seen.contains(found@));
                                }
                            }
                            lemma_first_with(storage@, field@, found@, 0, i as int);
                            assert forall|a: int| 0 <= a < now.len() implies first_with(
                                storage@,
                                field@,
                                #[trigger] now[a],
                                0,
                            ) < i + 1 by {
                                if a < seen.len() {
                                    assert(now[a] == seen[a]);
                                }
                            }
                            assert forall|a: int, b: int| 0 <= a < b < now.len() implies first_with(
                                storage@,
                                field@,
                                #[trigger] now[a],
                                0,
                            ) < first_with(storage@, field@, #[trigger] now[b], 0) by {
                                assert(now[a] == seen[a]);
                                if b < seen.len() {
                                    assert(now[b] == seen[b]);
                                }
                            }
                            assert forall|a: int, b: int| 0 <= a < now.len() && 0 <= b < now.len()
                                && a != b implies now[a] != now[b] by {
                                if a < seen.len() && b < seen.len() {
                                    assert(seen[a] != seen[b]);
                                }
                            }
                            assert forall|j: Json| now.contains(j) <==> exists|p: int|
                                0 <= p < i + 1 && json_at((#[trigger] storage@[p]).value@, field@)
                                    == Some(j) by {
                                if now.contains(j) {
                                    let x = choose|x: int| 0 <= x < now.len() && now[x] == j;
                                    if x < seen.len() {
                                        assert(seen.contains(j));
                                    } else {
                                        assert(json_at(storage@[i as int].value@, field@) == Some(
                                            j,
                                        ));
                                    }
                                }
                                if exists|p: int|
                                    0 <= p < i + 1 && json_at(
                                        (#[trigger] storage@[p]).value@,
                                        field@,
                                    ) == Some(j) {
                                    let p = choose|p: int|
                                        0 <= p < i + 1 && json_at(
                                            (#[trigger] storage@[p]).value@,
                                            field@,
                                        ) == Some(j);
                                    if p < i {
                                        assert(seen.contains(j));
                                        let x = choose|x: int| 0 <= x < seen.len() && seen[x] == j;
                                        assert(now[x] == j);
                                    } else {
                                        assert(now[seen.len() as int] == j);
                                    }
                                }
                            }
                        }
                    } else {
                        proof {
                            assert forall|j: Json| seen.contains(j) <==> exists|p: int|
                                0 <= p < i + 1 && json_at((#[trigger] storage@[p]).value@, field@)
                                    == Some(j) by {
                                if exists|p: int|
                                    0 <= p < i + 1 && json_at(
                                        (#[trigger] storage@[p]).value@,
                                        field@,
                                    ) == Some(j) {
                                    let p = choose|p: int|
                                        0 <= p < i + 1 && json_at(
                                            (#[trigger] storage@[p]).value@,
                                            field@,
                                        ) == Some(j);
                                    if p == i {
                                        assert(j == found@);
                                    }
                                }
                                if seen.contains(j) {
                                    let p = choose|p: int|
                                        0 <= p < i && json_at(
                                            (#[trigger] storage@[p]).value@,
                                            field@,
                                        ) == Some(j);
                                    assert(0 <= p < i + 1);
                                }
                            }
                        }
                    }
                },
                None => {
                    proof {
                        assert forall|j: Json| seen.contains(j) <==> exists|p: int|
                            0 <= p < i + 1 && json_at((#[trigger] storage@[p]).value@, field@)
                                == Some(j) by {
                            if exists|p: int|
                                0 <= p < i + 1 && json_at((#[trigger] storage@[p]).value@, field@)
                                    == Some(j) {
                                let p = choose|p: int|
                                    0 <= p < i + 1 && json_at(
                                        (#[trigger] storage@[p]).value@,
                                        field@,
                                    ) == Some(j);
                                assert(p != i);
                            }
                            if seen.contains(j) {
                                let p = choose|p: int|
                                    0 <= p < i && json_at((#[trigger] storage@[p]).value@, field@)
                                        == Some(j);
                                assert(0 <= p < i + 1);
                            }
                        }
                    }
                },
            }
            i += 1;
        }
        out
    }
}

} // verus!
