//! The JSON-like value tree that the store keeps under each key.

use vstd::prelude::*;
use crate::keys::{key_lt, lemma_key_lt_total};

verus! {

/// A JSON number. Integers and floats are kept apart: an integer is never
/// turned into a float or back.
#[derive(Clone, Copy, Debug, PartialEq, Eq)]
pub enum Number {
    /// A non-negative integer.
    PosInt(u64),
    /// A negative integer. Well-formed only below zero.
    NegInt(i64),
    /// A float, held as the bit pattern of an IEEE 754 double. Well-formed
    /// only if the pattern is neither an infinity nor a NaN.
    Float(u64),
}

/// One `key: value` entry of an object, or one record of a store.
#[derive(Debug, PartialEq, Eq)]
pub struct Member {
    pub key: String,
    pub value: Value,
}

/// A value tree.
#[derive(Debug, PartialEq, Eq)]
pub enum Value {
    Null,
    Bool(bool),
    Number(Number),
    String(String),
    Array(Vec<Value>),
    /// The members of an object. Well-formed only if they stand in strictly
    /// rising key order, so that no key occurs twice.
    Object(Vec<Member>),
}

/// The mathematical model of a [`Value`]: objects are maps, so the order in
/// which members were inserted is not part of it.
pub enum Json {
    Null,
    Bool(bool),
    Int(int),
    Float(u64),
    String(Seq<char>),
    Array(Seq<Json>),
    Object(Map<Seq<char>, Json>),
}

/// The bit pattern is a finite double: its exponent field is not all ones.
pub open spec fn float_is_finite(bits: u64) -> bool {
    (bits >> 52) & 0x7ff != 0x7ff
}

impl Number {
    pub open spec fn wf(self) -> bool {
        match self {
            Number::PosInt(_) => true,
            Number::NegInt(i) => i < 0,
            Number::Float(bits) => float_is_finite(bits),
        }
    }
}

impl View for Number {
    type V = Json;

    open spec fn view(&self) -> Json {
        match *self {
            Number::PosInt(u) => Json::Int(u as int),
            Number::NegInt(i) => Json::Int(i as int),
            Number::Float(bits) => Json::Float(bits),
        }
    }
}

/// Some member of `s` has the key `k`.
pub open spec fn has_key(s: Seq<Member>, k: Seq<char>) -> bool {
    exists|i: int| 0 <= i < s.len() && (#[trigger] s[i]).key@ == k
}

/// The position of a member of `s` with the key `k`, if there is one.
pub open spec fn index_of_key(s: Seq<Member>, k: Seq<char>) -> int {
    choose|i: int| 0 <= i < s.len() && (#[trigger] s[i]).key@ == k
}

/// The members stand in strictly rising key order.
pub open spec fn members_sorted(s: Seq<Member>) -> bool {
    forall|i: int, j: int|
        0 <= i < j < s.len() ==> key_lt((#[trigger] s[i]).key@, (#[trigger] s[j]).key@)
}

pub open spec fn value_view(v: Value) -> Json
    decreases v,
{
    match v {
        Value::Null => Json::Null,
        Value::Bool(b) => Json::Bool(b),
        Value::Number(n) => n@,
        Value::String(s) => Json::String(s@),
        Value::Array(a) => Json::Array(values_view(a@)),
        Value::Object(m) => Json::Object(members_view(m@)),
    }
}

/// The models of the values of a sequence, in order.
pub open spec fn values_view(s: Seq<Value>) -> Seq<Json>
    decreases s,
{
    Seq::new(
        s.len(),
        |i: int|
            if 0 <= i < s.len() {
                value_view(s[i])
            } else {
                Json::Null
            },
    )
}

/// The map from each key of `s` to the model of its value.
pub open spec fn members_view(s: Seq<Member>) -> Map<Seq<char>, Json>
    decreases s,
{
    Map::new(
        |k: Seq<char>| has_key(s, k),
        |k: Seq<char>|
            {
                let i = index_of_key(s, k);
                if 0 <= i < s.len() {
                    value_view(s[i].value)
                } else {
                    Json::Null
                }
            },
    )
}

pub open spec fn value_wf(v: Value) -> bool
    decreases v,
{
    match v {
        Value::Number(n) => n.wf(),
        Value::Array(a) => values_wf(a@),
        Value::Object(m) => members_wf(m@),
        _ => true,
    }
}

/// Every value of the sequence is well-formed.
pub open spec fn values_wf(s: Seq<Value>) -> bool
    decreases s,
{
    forall|i: int| 0 <= i < s.len() ==> value_wf(#[trigger] s[i])
}

/// The members are in strictly rising key order and hold well-formed values.
pub open spec fn members_wf(s: Seq<Member>) -> bool
    decreases s,
{
    &&& members_sorted(s)
    &&& forall|i: int| 0 <= i < s.len() ==> value_wf((#[trigger] s[i]).value)
}

impl View for Value {
    type V = Json;

    open spec fn view(&self) -> Json {
        value_view(*self)
    }
}

impl Value {
    /// Numbers are normalised and object members sorted by key, at every
    /// depth.
    pub open spec fn wf(self) -> bool {
        value_wf(self)
    }
}

/// In sorted members a key stands at one position only.
pub proof fn lemma_sorted_keys_distinct(s: Seq<Member>, i: int, j: int)
    requires
        members_sorted(s),
        0 <= i < s.len(),
        0 <= j < s.len(),
        s[i].key@ == s[j].key@,
    ensures
        i == j,
{
    lemma_key_lt_total(s[i].key@, s[j].key@);
}

/// What the map of sorted members holds under the key of the member at `i`.
pub proof fn lemma_members_lookup(s: Seq<Member>, i: int)
    requires
        members_sorted(s),
        0 <= i < s.len(),
    ensures
        members_view(s).dom().contains(s[i].key@),
        members_view(s)[s[i].key@] == value_view(s[i].value),
{
    let k = s[i].key@;
    assert(has_key(s, k));
    let j = index_of_key(s, k);
    lemma_sorted_keys_distinct(s, i, j);
}

} // verus!
