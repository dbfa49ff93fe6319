//! Dotted field paths: `user.tags.1` names the member `user`, in it the
//! member `tags`, in it the item at position 1.

use vstd::prelude::*;
use vstd::string::StrSliceExecFns;
use crate::hashing::{hash_value, spec_hash_value};
use crate::members::get_member;
use crate::value::{Json, Value};

verus! {

/// The segments of a path: what stands between its dots. A path without a
/// dot is one segment, and so is the empty path.
pub open spec fn split_dots(s: Seq<char>) -> Seq<Seq<char>>
    decreases s.len(),
{
    if s.len() == 0 {
        seq![Seq::empty()]
    } else if s.last() == '.' {
        split_dots(s.drop_last()).push(Seq::empty())
    } else {
        let init = split_dots(s.drop_last());
        init.update(init.len() - 1, init.last().push(s.last()))
    }
}

pub open spec fn is_digit(c: char) -> bool {
    '0' <= c && c <= '9'
}

pub open spec fn all_digits(s: Seq<char>) -> bool {
    forall|i: int| 0 <= i < s.len() ==> is_digit(#[trigger] s[i])
}

/// The number that decimal digits write.
pub open spec fn digits_value(s: Seq<char>) -> nat
    decreases s.len(),
{
    if s.len() == 0 {
        0
    } else {
        digits_value(s.drop_last()) * 10 + (s.last() as u32 - '0' as u32) as nat
    }
}

/// The position that a segment names in an array: an optional `+` and then
/// one or more decimal digits, nothing else, and a number that `usize` can
/// hold.
pub open spec fn decimal_index(s: Seq<char>) -> Option<usize> {
    let body = if s.len() > 0 && s[0] == '+' {
        s.drop_first()
    } else {
        s
    };
    if body.len() > 0 && all_digits(body) && digits_value(body) <= usize::MAX {
        Some(digits_value(body) as usize)
    } else {
        None
    }
}

/// One step into a value: by key into an object, by position into an array,
/// nowhere from anything else.
pub open spec fn json_step(j: Json, part: Seq<char>) -> Option<Json> {
    match j {
        Json::Object(m) => if m.dom().contains(part) {
            Some(m[part])
        } else {
            None
        },
        Json::Array(a) => match decimal_index(part) {
            Some(i) => if i < a.len() {
                Some(a[i as int])
            } else {
                None
            },
            None => None,
        },
        _ => None,
    }
}

/// The value reached by taking the steps from position `from` on, if every
/// one of them can be taken.
pub open spec fn json_walk(j: Json, parts: Seq<Seq<char>>, from: int) -> Option<Json>
    decreases parts.len() - from,
{
    if from < 0 || from >= parts.len() {
        Some(j)
    } else {
        match json_step(j, parts[from]) {
            Some(next) => json_walk(next, parts, from + 1),
            None => None,
        }
    }
}

/// The value at a dotted path, if the path resolves.
pub open spec fn json_at(j: Json, path: Seq<char>) -> Option<Json> {
    json_walk(j, split_dots(path), 0)
}

proof fn lemma_digits_grow(s: Seq<char>, n: int)
    requires
        0 <= n <= s.len(),
    ensures
        digits_value(s.subrange(0, n)) <= digits_value(s),
    decreases s.len() - n,
{
    if n < s.len() {
        lemma_digits_grow(s, n + 1);
        assert(s.subrange(0, n + 1).drop_last() == s.subrange(0, n));
    } else {
        assert(s.subrange(0, n) == s);
    }
}

/// Reads a segment as a position in an array.
pub fn parse_index(part: &str) -> (r: Option<usize>)
    ensures
        r == decimal_index(part@),
{
    let n = part.unicode_len();
    if n == 0 {
        return None;
    }
    let start: usize = if part.get_char(0) == '+' {
        1
    } else {
        0
    };
    if start == n {
        return None;
    }
    let ghost body = part@.subrange(start as int, n as int);
    proof {
        if start == 1 {
            assert(body == part@.drop_first());
        } else {
            assert(body == part@);
        }
    }
    let mut acc: usize = 0;
    let mut i: usize = start;
    while i < n
        invariant
            start <= i <= n,
            n == part@.len(),
            body == part@.subrange(start as int, n as int),
            body.len() > 0,
            body == if part@.len() > 0 && part@[0] == '+' {
                part@.drop_first()
            } else {
                part@
            },
            all_digits(body.subrange(0, i - start)),
            acc == digits_value(body.subrange(0, i - start)),
        decreases n - i,
    {
        let c = part.get_char(i);
        if !(c >= '0' && c <= '9') {
            assert(!is_digit(body[i - start]));
            return None;
        }
        let digit: usize = (c as u32 - '0' as u32) as usize;
        proof {
            lemma_digits_grow(body, i - start + 1);
            assert(body.subrange(0, i - start + 1).drop_last() == body.subrange(0, i - start));
            assert(body.subrange(0, i - start + 1).last() == c);
        }
        match acc.checked_mul(10) {
            None => {
                return None;
            },
            Some(tens) => match tens.checked_add(digit) {
                None => {
                    return None;
                },
                Some(next) => {
                    acc = next;
                },
            },
        }
        proof {
            assert forall|j: int| 0 <= j < i - start + 1 implies is_digit(
                #[trigger] body.subrange(0, i - start + 1)[j],
            ) by {
                if j < i - start {
                    assert(body.subrange(0, i - start)[j] == body[j]);
                }
            }
        }
        i += 1;
    }
    proof {
        assert(body.subrange(0, n - start) == body);
    }
    Some(acc)
}

/// Cuts a path into its segments.
pub fn split_path(path: &str) -> (r: Vec<String>)
    ensures
        r@.len() == split_dots(path@).len(),
        forall|i: int| 0 <= i < r@.len() ==> (#[trigger] r@[i])@ == split_dots(path@)[i],
{
    let n = path.unicode_len();
    let mut out: Vec<String> = Vec::new();
    let mut start: usize = 0;
    let mut i: usize = 0;
    proof {
        assert(path@.subrange(0, 0) == Seq::<char>::empty());
    }
    while i < n
        invariant
            start <= i <= n,
            n == path@.len(),
            out@.len() + 1 == split_dots(path@.subrange(0, i as int)).len(),
            forall|j: int|
                0 <= j < out@.len() ==> (#[trigger] out@[j])@ == split_dots(
                    path@.subrange(0, i as int),
                )[j],
            split_dots(path@.subrange(0, i as int)).last() == path@.subrange(
                start as int,
                i as int,
            ),
        decreases n - i,
    {
        let c = path.get_char(i);
        let ghost prev = path@.subrange(0, i as int);
        let ghost cur = path@.subrange(0, i + 1);
        proof {
            assert(cur.drop_last() == prev);
            assert(cur.last() == c);
        }
        if c == '.' {
            out.push(path.substring_char(start, i).to_owned());
            start = i + 1;
            proof {
                assert(path@.subrange(start as int, i + 1) == Seq::<char>::empty());
            }
        } else {
            proof {
                assert(path@.subrange(start as int, i + 1) == path@.subrange(
                    start as int,
                    i as int,
                ).push(c));
            }
        }
        i += 1;
    }
    proof {
        assert(path@.subrange(0, n as int) == path@);
    }
    out.push(path.substring_char(start, n).to_owned());
    out
}

/// One step into a value.
pub fn step<'a>(value: &'a Value, part: &str) -> (r: Option<&'a Value>)
    requires
        value.wf(),
    ensures
        match r {
            Some(v) => json_step(value@, part@) == Some(v@) && v.wf(),
            None => json_step(value@, part@) is None,
        },
{
    match value {
        Value::Object(m) => {
            let found = get_member(m, part);
            found
        },
        Value::Array(a) => match parse_index(part) {
            Some(i) => if i < a.len() {
                Some(&a[i])
            } else {
                None
            },
            None => None,
        },
        _ => None,
    }
}

/// The value at a dotted path: each segment steps by key into an object or
/// by position into an array. `None` as soon as a segment cannot be
/// resolved.
pub fn extract_field_value<'a>(value: &'a Value, field_path: &str) -> (r: Option<&'a Value>)
    requires
        value.wf(),
    ensures
        match r {
            Some(v) => json_at(value@, field_path@) == Some(v@) && v.wf(),
            None => json_at(value@, field_path@) is None,
        },
{
    let parts = split_path(field_path);
    let ghost segments = split_dots(field_path@);
    let mut current: &'a Value = value;
    let mut i: usize = 0;
    while i < parts.len()
        invariant
            i <= parts.len(),
            current.wf(),
            segments == split_dots(field_path@),
            parts@.len() == segments.len(),
            forall|j: int| 0 <= j < parts@.len() ==> (#[trigger] parts@[j])@ == segments[j],
            json_walk(value@, segments, 0) == json_walk(current@, segments, i as int),
        decreases parts.len() - i,
    {
        match step(current, parts[i].as_str()) {
            Some(next) => {
                current = next;
            },
            None => {
                return None;
            },
        }
        i += 1;
    }
    Some(current)
}

/// The structural hash of the value at a dotted path, if the path resolves.
pub fn hash_field_value(value: &Value, field_path: &str) -> (r: Option<u64>)
    requires
        value.wf(),
    ensures
        r == match json_at(value@, field_path@) {
            Some(j) => Some(spec_hash_value(j)),
            None => None,
        },
{
    match extract_field_value(value, field_path) {
        Some(field_value) => Some(hash_value(field_value)),
        None => None,
    }
}

} // verus!
