//! Making values, copying them, and telling whether two are the same.

use vstd::prelude::*;
use crate::keys::{compare_keys, key_lt, KeyOrder, lemma_key_lt_total};
use crate::members::{get_member, put_member};
use crate::value::{
    float_is_finite,
    has_key,
    members_sorted,
    members_view,
    members_wf,
    value_wf,
    values_view,
    values_wf,
    Json,
    Member,
    Number,
    Value,
    lemma_members_lookup,
};

verus! {

/// Two lists of members have the same keys at the same places, and under
/// them values with the same model.
pub open spec fn members_agree(s: Seq<Member>, t: Seq<Member>) -> bool {
    &&& s.len() == t.len()
    &&& forall|i: int|
        0 <= i < s.len() ==> (#[trigger] s[i]).key@ == t[i].key@ && s[i].value@ == t[i].value@
}

/// Members that agree make the same map.
pub proof fn lemma_agree_same_view(s: Seq<Member>, t: Seq<Member>)
    requires
        members_sorted(s),
        members_agree(s, t),
    ensures
        members_sorted(t),
        members_view(s) == members_view(t),
{
    assert forall|i: int, j: int| 0 <= i < j < t.len() implies key_lt(
        (#[trigger] t[i]).key@,
        (#[trigger] t[j]).key@,
    ) by {
        assert(key_lt(s[i].key@, s[j].key@));
    }
    let a = members_view(s);
    let b = members_view(t);
    assert forall|k: Seq<char>| a.dom().contains(k) <==> b.dom().contains(k) by {
        if has_key(s, k) {
            let i = choose|i: int| 0 <= i < s.len() && (#[trigger] s[i]).key@ == k;
            assert(t[i].key@ == k);
        }
        if has_key(t, k) {
            let i = choose|i: int| 0 <= i < t.len() && (#[trigger] t[i]).key@ == k;
            assert(s[i].key@ == k);
        }
    }
    assert forall|k: Seq<char>| a.dom().contains(k) implies a[k] == b[k] by {
        let i = choose|i: int| 0 <= i < s.len() && (#[trigger] s[i]).key@ == k;
        lemma_members_lookup(s, i);
        assert(t[i].key@ == k);
        lemma_members_lookup(t, i);
    }
    assert(a =~= b);
}

/// Sorted members that make the same map agree.
pub proof fn lemma_same_view_agree(s: Seq<Member>, t: Seq<Member>)
    requires
        members_sorted(s),
        members_sorted(t),
        members_view(s) == members_view(t),
    ensures
        members_agree(s, t),
    decreases s.len(),
{
    crate::members::lemma_members_len(s);
    crate::members::lemma_members_len(t);
    if s.len() > 0 {
        let p = s.len() - 1;
        // The last key of each list is the greatest key of the map.
        lemma_members_lookup(s, p);
        lemma_members_lookup(t, p);
        let i = choose|i: int| 0 <= i < t.len() && (#[trigger] t[i]).key@ == s[p].key@;
        let j = choose|j: int| 0 <= j < s.len() && (#[trigger] s[j]).key@ == t[p].key@;
        lemma_key_lt_total(s[p].key@, t[p].key@);
        if i < p {
            assert(key_lt(t[i].key@, t[p].key@));
            if j < p {
                assert(key_lt(s[j].key@, s[p].key@));
            }
        }
        assert(s[p].key@ == t[p].key@);
        crate::members::lemma_remove_view(s, p);
        crate::members::lemma_remove_view(t, p);
        lemma_same_view_agree(s.remove(p), t.remove(p));
        assert forall|x: int| 0 <= x < s.len() implies (#[trigger] s[x]).key@ == t[x].key@
            && s[x].value@ == t[x].value@ by {
            if x < p {
                assert(s.remove(p)[x] == s[x]);
                assert(t.remove(p)[x] == t[x]);
            }
        }
    }
}

impl Number {
    /// The number of a signed integer.
    pub fn from_i64(i: i64) -> (n: Number)
        ensures
            n.wf(),
            n@ == Json::Int(i as int),
    {
        if i < 0 {
            Number::NegInt(i)
        } else {
            Number::PosInt(i as u64)
        }
    }

    /// The number of an unsigned integer.
    pub fn from_u64(u: u64) -> (n: Number)
        ensures
            n.wf(),
            n@ == Json::Int(u as int),
    {
        Number::PosInt(u)
    }

    /// The number of a double given by its bit pattern; `None` for an
    /// infinity or a NaN.
    pub fn from_float_bits(bits: u64) -> (n: Option<Number>)
        ensures
            n is Some <==> float_is_finite(bits),
            n matches Some(x) ==> x.wf() && x@ == Json::Float(bits),
    {
        if (bits >> 52) & 0x7ff != 0x7ff {
            Some(Number::Float(bits))
        } else {
            None
        }
    }

    /// Whether the number is well-formed.
    pub fn is_well_formed(&self) -> (r: bool)
        ensures
            r == self.wf(),
    {
        match self {
            Number::PosInt(_) => true,
            Number::NegInt(i) => *i < 0,
            Number::Float(bits) => (*bits >> 52) & 0x7ff != 0x7ff,
        }
    }
}

impl Value {
    /// The value of a signed integer.
    pub fn from_i64(i: i64) -> (v: Value)
        ensures
            v.wf(),
            v@ == Json::Int(i as int),
    {
        Value::Number(Number::from_i64(i))
    }

    /// The value of an unsigned integer.
    pub fn from_u64(u: u64) -> (v: Value)
        ensures
            v.wf(),
            v@ == Json::Int(u as int),
    {
        Value::Number(Number::from_u64(u))
    }

    /// The value of a double given by its bit pattern; `Null` for an infinity
    /// or a NaN.
    pub fn from_float_bits(bits: u64) -> (v: Value)
        ensures
            v.wf(),
            v@ == if float_is_finite(bits) {
                Json::Float(bits)
            } else {
                Json::Null
            },
    {
        match Number::from_float_bits(bits) {
            Some(n) => Value::Number(n),
            None => Value::Null,
        }
    }

    /// The value of a text.
    pub fn string(s: &str) -> (v: Value)
        ensures
            v.wf(),
            v@ == Json::String(s@),
    {
        Value::String(s.to_owned())
    }

    /// The array of the given items.
    pub fn array(items: Vec<Value>) -> (v: Value)
        requires
            values_wf(items@),
        ensures
            v.wf(),
            v@ == Json::Array(values_view(items@)),
    {
        Value::Array(items)
    }

    /// The object without members.
    pub fn object() -> (v: Value)
        ensures
            v.wf(),
            v@ == Json::Object(Map::<Seq<char>, Json>::empty()),
    {
        let v = Value::Object(Vec::new());
        assert(members_view(Seq::<Member>::empty()) =~= Map::<Seq<char>, Json>::empty());
        v
    }

    /// The object of the given members. Where a key comes more than once,
    /// the last of its members stays.
    pub fn object_from(members: Vec<Member>) -> (v: Value)
        requires
            forall|i: int| 0 <= i < members@.len() ==> (#[trigger] members@[i]).value.wf(),
        ensures
            v.wf(),
            v@ == Json::Object(members_put_all(members@, members@.len() as int)),
    {
        Value::Object(sort_members(members))
    }

    /// Puts a value under a key of an object, in place of the one that was
    /// there if there was one. A value that is no object stays as it is.
    /// Returns whether the value is an object.
    pub fn set_member(&mut self, key: &str, value: Value) -> (done: bool)
        requires
            old(self).wf(),
            value.wf(),
        ensures
            final(self).wf(),
            done == (old(self)@ is Object),
            final(self)@ == if let Json::Object(m) = old(self)@ {
                Json::Object(m.insert(key@, value@))
            } else {
                old(self)@
            },
    {
        match self {
            Value::Object(m) => {
                put_member(m, key.to_owned(), value);
                true
            },
            _ => false,
        }
    }

    /// The value under a key of an object. `None` if the key is not there or
    /// the value is no object.
    pub fn member(&self, key: &str) -> (r: Option<&Value>)
        requires
            self.wf(),
        ensures
            r is Some <==> (self@ matches Json::Object(m) && m.dom().contains(key@)),
            r matches Some(v) ==> v.wf() && v@ == self@->Object_0[key@],
    {
        match self {
            Value::Object(m) => {
                let found = get_member(m, key);
                found
            },
            _ => None,
        }
    }

    /// The item at a position of an array. `None` if the position is past
    /// the end or the value is no array.
    pub fn item(&self, index: usize) -> (r: Option<&Value>)
        requires
            self.wf(),
        ensures
            r is Some <==> (self@ matches Json::Array(a) && index < a.len()),
            r matches Some(v) ==> v.wf() && v@ == self@->Array_0[index as int],
    {
        match self {
            Value::Array(a) => if index < a.len() {
                Some(&a[index])
            } else {
                None
            },
            _ => None,
        }
    }

    /// Whether the value is well-formed: numbers normalised and object
    /// members in strictly rising key order, at every depth.
    pub fn is_well_formed(&self) -> (r: bool)
        ensures
            r == self.wf(),
        decreases *self,
    {
        match self {
            Value::Number(n) => n.is_well_formed(),
            Value::Array(a) => {
                let mut i: usize = 0;
                while i < a.len()
                    invariant
                        i <= a.len(),
                        *self == Value::Array(*a),
                        forall|j: int| 0 <= j < i ==> value_wf(#[trigger] a@[j]),
                    decreases a.len() - i,
                {
                    assert((*self)->Array_0 == *a);
                    let item_ok = a[i].is_well_formed();
                    if !item_ok {
                        return false;
                    }
                    i += 1;
                }
                true
            },
            Value::Object(m) => {
                let mut i: usize = 0;
                while i < m.len()
                    invariant
                        i <= m.len(),
                        *self == Value::Object(*m),
                        forall|j: int| 0 <= j < i ==> value_wf((#[trigger] m@[j]).value),
                        forall|a: int, b: int|
                            0 <= a < b < i ==> key_lt(
                                (#[trigger] m@[a]).key@,
                                (#[trigger] m@[b]).key@,
                            ),
                    decreases m.len() - i,
                {
                    assert((*self)->Object_0 == *m);
                    let value_ok = m[i].value.is_well_formed();
                    if !value_ok {
                        return false;
                    }
                    if i > 0 {
                        match compare_keys(m[i - 1].key.as_str(), m[i].key.as_str()) {
                            KeyOrder::Before => {
                                proof {
                                    assert forall|a: int, b: int| 0 <= a < b < i + 1 implies key_lt(
                                        (#[trigger] m@[a]).key@,
                                        (#[trigger] m@[b]).key@,
                                    ) by {
                                        if b == i && a < i - 1 {
                                            crate::keys::lemma_key_lt_transitive(
                                                m@[a].key@,
                                                m@[i - 1].key@,
                                                m@[i as int].key@,
                                            );
                                        }
                                    }
                                }
                            },
                            _ => {
                                proof {
                                    lemma_key_lt_total(m@[i - 1].key@, m@[i as int].key@);
                                }
                                return false;
                            },
                        }
                    }
                    i += 1;
                }
                true
            },
            _ => true,
        }
    }

    /// A copy of the value.
    pub fn deep_clone(&self) -> (r: Value)
        requires
            self.wf(),
        ensures
            r@ == self@,
            r.wf(),
        decreases *self,
    {
        match self {
            Value::Null => Value::Null,
            Value::Bool(b) => Value::Bool(*b),
            Value::Number(n) => Value::Number(*n),
            Value::String(s) => Value::String(s.clone()),
            Value::Array(a) => {
                let mut out: Vec<Value> = Vec::new();
                let mut i: usize = 0;
                while i < a.len()
                    invariant
                        i <= a.len(),
                        *self == Value::Array(*a),
                        self.wf(),
                        out@.len() == i,
                        forall|j: int| 0 <= j < i ==> (#[trigger] out@[j])@ == a@[j]@,
                        forall|j: int| 0 <= j < i ==> value_wf(#[trigger] out@[j]),
                    decreases a.len() - i,
                {
                    out.push(a[i].deep_clone());
                    i += 1;
                }
                assert(values_view(out@) =~= values_view(a@));
                Value::Array(out)
            },
            Value::Object(m) => {
                let out = clone_members(m);
                Value::Object(out)
            },
        }
    }

    /// Whether two values are the same: the same kind and content, whatever
    /// the order in which the members of their objects came.
    pub fn equals(&self, other: &Value) -> (r: bool)
        requires
            self.wf(),
            other.wf(),
        ensures
            r == (self@ == other@),
        decreases *self,
    {
        match (self, other) {
            (Value::Null, Value::Null) => true,
            (Value::Bool(a), Value::Bool(b)) => *a == *b,
            (Value::Number(a), Value::Number(b)) => match (a, b) {
                (Number::PosInt(x), Number::PosInt(y)) => *x == *y,
                (Number::NegInt(x), Number::NegInt(y)) => *x == *y,
                (Number::Float(x), Number::Float(y)) => *x == *y,
                _ => false,
            },
            (Value::String(a), Value::String(b)) => match compare_keys(a.as_str(), b.as_str()) {
                KeyOrder::Same => true,
                _ => false,
            },
            (Value::Array(a), Value::Array(b)) => {
                if a.len() != b.len() {
                    assert(values_view(a@).len() != values_view(b@).len());
                    return false;
                }
                let mut i: usize = 0;
                while i < a.len()
                    invariant
                        i <= a.len(),
                        a.len() == b.len(),
                        *self == Value::Array(*a),
                        *other == Value::Array(*b),
                        self.wf(),
                        other.wf(),
                        forall|j: int| 0 <= j < i ==> a@[j]@ == b@[j]@,
                    decreases a.len() - i,
                {
                    if !a[i].equals(&b[i]) {
                        assert(values_view(a@)[i as int] != values_view(b@)[i as int]);
                        return false;
                    }
                    i += 1;
                }
                assert(values_view(a@) =~= values_view(b@));
                true
            },
            (Value::Object(a), Value::Object(b)) => {
                if a.len() != b.len() {
                    proof {
                        if members_view(a@) == members_view(b@) {
                            lemma_same_view_agree(a@, b@);
                        }
                    }
                    return false;
                }
                let mut i: usize = 0;
                while i < a.len()
                    invariant
                        i <= a.len(),
                        a.len() == b.len(),
                        *self == Value::Object(*a),
                        *other == Value::Object(*b),
                        self.wf(),
                        other.wf(),
                        forall|j: int|
                            0 <= j < i ==> (#[trigger] a@[j]).key@ == b@[j].key@ && a@[j].value@
                                == b@[j].value@,
                    decreases a.len() - i,
                {
                    let same_key = match compare_keys(a[i].key.as_str(), b[i].key.as_str()) {
                        KeyOrder::Same => true,
                        _ => false,
                    };
                    if !same_key || !a[i].value.equals(&b[i].value) {
                        proof {
                            if members_view(a@) == members_view(b@) {
                                lemma_same_view_agree(a@, b@);
                            }
                        }
                        return false;
                    }
                    i += 1;
                }
                proof {
                    lemma_agree_same_view(a@, b@);
                }
                true
            },
            _ => false,
        }
    }
}

/// The map that comes of putting the first `n` members in, one after the
/// other.
pub open spec fn members_put_all(s: Seq<Member>, n: int) -> Map<Seq<char>, Json>
    decreases n,
{
    if n <= 0 || n > s.len() {
        Map::empty()
    } else {
        members_put_all(s, n - 1).insert(s[n - 1].key@, s[n - 1].value@)
    }
}

/// A copy of well-formed members.
pub fn clone_members(m: &Vec<Member>) -> (out: Vec<Member>)
    requires
        members_wf(m@),
    ensures
        members_agree(m@, out@),
        members_wf(out@),
        members_view(out@) == members_view(m@),
    decreases m,
{
    let mut out: Vec<Member> = Vec::new();
    let mut i: usize = 0;
    while i < m.len()
        invariant
            i <= m.len(),
            members_wf(m@),
            out@.len() == i,
            forall|j: int|
                0 <= j < i ==> (#[trigger] m@[j]).key@ == out@[j].key@ && m@[j].value@
                    == out@[j].value@,
            forall|j: int| 0 <= j < i ==> value_wf((#[trigger] out@[j]).value),
        decreases m.len() - i,
    {
        out.push(Member { key: m[i].key.clone(), value: m[i].value.deep_clone() });
        i += 1;
    }
    proof {
        lemma_agree_same_view(m@, out@);
    }
    out
}

/// Sorts members by key. Where a key comes more than once, the last of its
/// members stays.
pub fn sort_members(members: Vec<Member>) -> (out: Vec<Member>)
    requires
        forall|i: int| 0 <= i < members@.len() ==> (#[trigger] members@[i]).value.wf(),
    ensures
        members_wf(out@),
        members_view(out@) == members_put_all(members@, members@.len() as int),
{
    let ghost all = members@;
    let mut rest = members;
    let mut stack: Vec<Member> = Vec::new();
    // Turn the list round, so that the members can be taken off in order.
    while rest.len() > 0
        invariant
            rest@.len() + stack@.len() == all.len(),
            forall|j: int| 0 <= j < rest@.len() ==> (#[trigger] rest@[j]) == all[j],
            forall|j: int|
                0 <= j < stack@.len() ==> (#[trigger] stack@[j]) == all[all.len() - 1 - j],
        decreases rest.len(),
    {
        let last = rest.pop().unwrap();
        stack.push(last);
    }
    let mut out: Vec<Member> = Vec::new();
    assert(members_view(out@) =~= members_put_all(all, 0));
    while stack.len() > 0
        invariant
            stack@.len() <= all.len(),
            forall|j: int|
                0 <= j < stack@.len() ==> (#[trigger] stack@[j]) == all[all.len() - 1 - j],
            forall|i: int| 0 <= i < all.len() ==> (#[trigger] all[i]).value.wf(),
            members_wf(out@),
            members_view(out@) == members_put_all(all, all.len() - stack@.len()),
        decreases stack.len(),
    {
        let next = stack.pop().unwrap();
        put_member(&mut out, next.key, next.value);
    }
    out
}

} // verus!
