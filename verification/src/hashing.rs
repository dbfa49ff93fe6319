//! The structural hash: a 64-bit digest of a value tree, the same for every
//! insertion order of an object's members.
//!
//! A value is fed to `std`'s `DefaultHasher` as a fixed sequence of writes:
//! a tag byte for the kind, then the content. Words are written as eight
//! little-endian bytes, strings as their UTF-8 bytes followed by `0xff`.
//!
//! Integers and floats share a tag and are not made alike: an integer is
//! written as its own word, a float as the bits of the double, so that the
//! integer 1 and the float 1.0 are fed differently.

use vstd::prelude::*;
use vstd::bytes::{spec_u64_to_le_bytes, u64_to_le_bytes};
use vstd::utf8::encode_utf8;
use vstd::std_specs::hash::DefaultHasherAdditionalSpecFns;
use vstd::string::StrSliceExecFns;
use std::collections::hash_map::DefaultHasher;
use std::hash::Hasher;
use crate::keys::{key_lt, lemma_key_lt_total};
use crate::members::{lemma_members_len, lemma_remove_view};
use crate::value::{Json, Member, Number, Value, members_sorted, members_view, lemma_members_lookup};

verus! {

/// The key of `s` that is below every other key of `s`.
pub open spec fn least_key(s: Set<Seq<char>>) -> Seq<char> {
    choose|k: Seq<char>| is_least_key(s, k)
}

pub open spec fn is_least_key(s: Set<Seq<char>>, k: Seq<char>) -> bool {
    &&& s.contains(k)
    &&& forall|j: Seq<char>| s.contains(j) && j != k ==> key_lt(k, j)
}

/// The keys of a finite set, in rising order.
pub open spec fn sorted_keys(s: Set<Seq<char>>) -> Seq<Seq<char>>
    decreases s.len(),
    when s.finite()
{
    if s.contains(least_key(s)) {
        seq![least_key(s)] + sorted_keys(s.remove(least_key(s)))
    } else {
        Seq::empty()
    }
}

/// The word of an integer: itself if it is not negative, else the
/// two's-complement pattern of the 64-bit signed integer.
pub open spec fn int_word(i: int) -> u64 {
    if i >= 0 {
        i as u64
    } else {
        #[verifier::truncate]
        ((i as i64) as u64)
    }
}

/// The writes that feed a string: its bytes, then the byte `0xff`.
pub open spec fn str_writes(s: Seq<char>) -> Seq<Seq<u8>> {
    seq![encode_utf8(s), seq![0xffu8]]
}

/// The writes that feed a value.
pub open spec fn json_writes(j: Json) -> Seq<Seq<u8>>
    decreases j, 0int,
{
    match j {
        Json::Null => seq![seq![0u8]],
        Json::Bool(b) => seq![seq![1u8], seq![if b { 1u8 } else { 0u8 }]],
        Json::Int(i) => seq![seq![2u8], spec_u64_to_le_bytes(int_word(i))],
        Json::Float(bits) => seq![seq![2u8], spec_u64_to_le_bytes(bits)],
        Json::String(s) => seq![seq![3u8]] + str_writes(s),
        Json::Array(a) => seq![seq![4u8], spec_u64_to_le_bytes(a.len() as u64)] + items_writes(
            a,
            a.len() as int,
        ),
        Json::Object(m) => if m.dom().finite() {
            seq![seq![5u8], spec_u64_to_le_bytes(m.dom().len() as u64)] + entries_writes(
                m,
                sorted_keys(m.dom()),
                m.dom().len() as int,
            )
        } else {
            seq![seq![5u8]]
        },
    }
}

/// The writes that feed the first `n` items of an array.
pub open spec fn items_writes(a: Seq<Json>, n: int) -> Seq<Seq<u8>>
    decreases a, n,
{
    if n <= 0 || n > a.len() {
        Seq::empty()
    } else {
        items_writes(a, n - 1) + json_writes(a[n - 1])
    }
}

/// The writes that feed the members under the first `n` of `keys`: for each
/// its key, then its value.
pub open spec fn entries_writes(m: Map<Seq<char>, Json>, keys: Seq<Seq<char>>, n: int) -> Seq<
    Seq<u8>,
>
    decreases m, n,
{
    if n <= 0 || n > keys.len() || !m.dom().finite() {
        Seq::empty()
    } else {
        entries_writes(m, keys, n - 1) + str_writes(keys[n - 1]) + if m.dom().contains(
            keys[n - 1],
        ) {
            json_writes(m[keys[n - 1]])
        } else {
            Seq::empty()
        }
    }
}

/// The structural hash of a value, as a function of its model alone.
pub open spec fn spec_hash_value(j: Json) -> u64 {
    DefaultHasher::spec_finish(json_writes(j))
}

/// The hash of a string.
pub open spec fn spec_hash_string(s: Seq<char>) -> u64 {
    DefaultHasher::spec_finish(str_writes(s))
}

/// The keys of members, in their order.
pub open spec fn member_keys(s: Seq<Member>) -> Seq<Seq<char>> {
    Seq::new(s.len(), |i: int| s[i].key@)
}

/// The keys of sorted members are the sorted keys of their map.
pub proof fn lemma_sorted_keys_of_members(s: Seq<Member>)
    requires
        members_sorted(s),
    ensures
        sorted_keys(members_view(s).dom()) == member_keys(s),
    decreases s.len(),
{
    let d = members_view(s).dom();
    lemma_members_len(s);
    if s.len() > 0 {
        let first = s[0].key@;
        lemma_members_lookup(s, 0);
        assert forall|j: Seq<char>| d.contains(j) && j != first implies key_lt(first, j) by {
            let i = choose|i: int| 0 <= i < s.len() && (#[trigger] s[i]).key@ == j;
            assert(i != 0);
        }
        assert(is_least_key(d, first));
        let k = least_key(d);
        if k != first {
            lemma_key_lt_total(k, first);
        }
        let t = s.remove(0);
        lemma_remove_view(s, 0);
        lemma_sorted_keys_of_members(t);
        assert(member_keys(s) =~= seq![first] + member_keys(t));
    }
}

/// The byte strings of a list of buffers, in order.
pub open spec fn writes_of(out: Seq<Vec<u8>>) -> Seq<Seq<u8>> {
    Seq::new(out.len(), |i: int| out[i]@)
}

proof fn lemma_writes_push(out: Seq<Vec<u8>>, w: Vec<u8>)
    ensures
        writes_of(out.push(w)) == writes_of(out).push(w@),
{
    assert(writes_of(out.push(w)) =~= writes_of(out).push(w@));
}

fn emit_tag(t: u8, out: &mut Vec<Vec<u8>>)
    ensures
        writes_of(final(out)@) == writes_of(old(out)@).push(seq![t]),
{
    let mut w: Vec<u8> = Vec::new();
    w.push(t);
    proof {
        assert(w@ =~= seq![t]);
        lemma_writes_push(out@, w);
    }
    out.push(w);
}

fn emit_str(s: &str, out: &mut Vec<Vec<u8>>)
    ensures
        writes_of(final(out)@) == writes_of(old(out)@) + str_writes(s@),
{
    let w = s.as_bytes_vec();
    proof {
        lemma_writes_push(out@, w);
    }
    out.push(w);
    emit_tag(0xff, out);
    assert(writes_of(out@) =~= writes_of(old(out)@) + str_writes(s@));
}

fn emit_word(x: u64, out: &mut Vec<Vec<u8>>)
    ensures
        writes_of(final(out)@) == writes_of(old(out)@).push(spec_u64_to_le_bytes(x)),
{
    let w = u64_to_le_bytes(x);
    proof {
        lemma_writes_push(out@, w);
    }
    out.push(w);
}

fn emit_number(n: &Number, out: &mut Vec<Vec<u8>>)
    requires
        n.wf(),
    ensures
        writes_of(final(out)@) == writes_of(old(out)@) + json_writes(n@),
{
    emit_tag(2, out);
    match n {
        Number::PosInt(u) => {
            emit_word(*u, out);
        },
        Number::NegInt(i) => {
            let w: u64 = #[verifier::truncate]
            (*i as u64);
            emit_word(w, out);
        },
        Number::Float(bits) => {
            emit_word(*bits, out);
        },
    }
    assert(writes_of(out@) =~= writes_of(old(out)@) + json_writes(n@));
}

/// Appends to `out` the writes that feed a value.
pub fn emit(v: &Value, out: &mut Vec<Vec<u8>>)
    requires
        v.wf(),
    ensures
        writes_of(final(out)@) == writes_of(old(out)@) + json_writes(v@),
    decreases *v,
{
    match v {
        Value::Null => {
            emit_tag(0, out);
            assert(writes_of(out@) =~= writes_of(old(out)@) + json_writes(v@));
        },
        Value::Bool(b) => {
            emit_tag(1, out);
            emit_tag(if *b { 1 } else { 0 }, out);
            assert(writes_of(out@) =~= writes_of(old(out)@) + json_writes(v@));
        },
        Value::Number(n) => {
            emit_number(n, out);
        },
        Value::String(s) => {
            emit_tag(3, out);
            emit_str(s.as_str(), out);
            assert(writes_of(out@) =~= writes_of(old(out)@) + json_writes(v@));
        },
        Value::Array(a) => {
            emit_tag(4, out);
            emit_word(a.len() as u64, out);
            let ghost base = writes_of(out@);
            let ghost items = v@->Array_0;
            let mut i: usize = 0;
            while i < a.len()
                invariant
                    i <= a.len(),
                    v.wf(),
                    *v == Value::Array(*a),
                    items == v@->Array_0,
                    items.len() == a.len(),
                    writes_of(out@) == base + items_writes(items, i as int),
                decreases a.len() - i,
            {
                emit(&a[i], out);
                proof {
                    assert(items[i as int] == a@[i as int]@);
                    assert(writes_of(out@) =~= base + items_writes(items, i + 1));
                }
                i += 1;
            }
            assert(writes_of(out@) =~= writes_of(old(out)@) + json_writes(v@));
        },
        Value::Object(m) => {
            emit_tag(5, out);
            emit_word(m.len() as u64, out);
            let ghost base = writes_of(out@);
            let ghost map = members_view(m@);
            let ghost keys = sorted_keys(map.dom());
            proof {
                lemma_members_len(m@);
                lemma_sorted_keys_of_members(m@);
            }
            let mut i: usize = 0;
            while i < m.len()
                invariant
                    i <= m.len(),
                    v.wf(),
                    *v == Value::Object(*m),
                    map == members_view(m@),
                    map.dom().finite(),
                    keys == member_keys(m@),
                    writes_of(out@) == base + entries_writes(map, keys, i as int),
                decreases m.len() - i,
            {
                emit_str(m[i].key.as_str(), out);
                emit(&m[i].value, out);
                proof {
                    lemma_members_lookup(m@, i as int);
                    assert(writes_of(out@) =~= base + entries_writes(map, keys, i + 1));
                }
                i += 1;
            }
            assert(writes_of(out@) =~= writes_of(old(out)@) + json_writes(v@));
        },
    }
}

/// Feeds a list of writes to a fresh hasher and returns what it makes of
/// them.
fn finish(writes: &Vec<Vec<u8>>) -> (r: u64)
    ensures
        r == DefaultHasher::spec_finish(writes_of(writes@)),
{
    let mut h = DefaultHasher::new();
    let mut i: usize = 0;
    while i < writes.len()
        invariant
            i <= writes.len(),
            h@ == writes_of(writes@).subrange(0, i as int),
        decreases writes.len() - i,
    {
        h.write(writes[i].as_slice());
        assert(h@ =~= writes_of(writes@).subrange(0, i + 1));
        i += 1;
    }
    assert(h@ =~= writes_of(writes@));
    h.finish()
}

/// The structural hash of a value.
pub fn hash_value(value: &Value) -> (r: u64)
    requires
        value.wf(),
    ensures
        r == spec_hash_value(value@),
{
    let mut writes: Vec<Vec<u8>> = Vec::new();
    emit(value, &mut writes);
    assert(writes_of(writes@) =~= json_writes(value@));
    finish(&writes)
}

/// The hash of a string.
pub fn hash_string(s: &str) -> (r: u64)
    ensures
        r == spec_hash_string(s@),
{
    let mut writes: Vec<Vec<u8>> = Vec::new();
    emit_str(s, &mut writes);
    assert(writes_of(writes@) =~= str_writes(s@));
    finish(&writes)
}

} // verus!
