//! The text of an index file: a JSON object with one member for each bucket,
//! in rising order of the hashes. The key of a member is the hash in decimal
//! digits, its value the array of the keys of the bucket.
//!
//! The compact form has no white space at all; the integrity digest of an
//! index is taken of it. The pretty form, which is what is written to disk,
//! has one member or item to the line and two spaces to the level.

use vstd::prelude::*;
use vstd::string::StringExecFns;
use vstd::utf8::encode_utf8;
use crate::buckets::{
    bucket_hashes, buckets_sorted, buckets_view, keys_view, sorted_hashes, Bucket,
    lemma_buckets_len, lemma_buckets_lookup, lemma_sorted_hashes_of_buckets,
};
use crate::digest::{calculate_sha256, sha256_hex_text};
use crate::hash_index::BucketMap;
use crate::text::{decimal_string, decimal_text, digit_char};

verus! {

/// The hexadecimal digit of a number below sixteen, in lower case.
pub open spec fn hex_digit(n: int) -> char {
    if n < 10 {
        digit_char(n as nat)
    } else if n == 10 {
        'a'
    } else if n == 11 {
        'b'
    } else if n == 12 {
        'c'
    } else if n == 13 {
        'd'
    } else if n == 14 {
        'e'
    } else {
        'f'
    }
}

/// What stands for a character in a JSON string literal: the double quote
/// and the backslash with a backslash before them; of the characters below
/// U+0020, backspace, tab, line feed, form feed and carriage return as `\b`,
/// `\t`, `\n`, `\f` and `\r`, any other as `\u00` and its two
/// hexadecimal digits; every other character as itself.
pub open spec fn escaped(c: char) -> Seq<char> {
    if c == '"' {
        seq!['\\', '"']
    } else if c == '\\' {
        seq!['\\', '\\']
    } else if c == '\u{8}' {
        seq!['\\', 'b']
    } else if c == '\t' {
        seq!['\\', 't']
    } else if c == '\n' {
        seq!['\\', 'n']
    } else if c == '\u{c}' {
        seq!['\\', 'f']
    } else if c == '\r' {
        seq!['\\', 'r']
    } else if (c as u32) < 0x20 {
        seq!['\\', 'u', '0', '0', hex_digit((c as int) / 16), hex_digit((c as int) % 16)]
    } else {
        seq![c]
    }
}

/// The characters of a text, each as it stands in a JSON string literal.
pub open spec fn escaped_text(s: Seq<char>) -> Seq<char>
    decreases s.len(),
{
    if s.len() == 0 {
        Seq::empty()
    } else {
        escaped_text(s.drop_last()) + escaped(s.last())
    }
}

/// The JSON string literal of a text: the text between double quotes, with
/// the escapes that JSON asks for.
pub open spec fn json_string_text(s: Seq<char>) -> Seq<char> {
    seq!['"'] + escaped_text(s) + seq!['"']
}

/// Writes a text as a JSON string literal with `serde_json::to_string`,
/// which puts the text between double quotes and escapes the double quote,
/// the backslash and the characters below U+0020, and nothing else.
#[verifier::external_body]
fn json_quote(s: &str) -> (r: String)
    ensures
        r@ == json_string_text(s@),
{
    serde_json::to_string(s).unwrap_or_default()
}

/// What stands before the first member of an object.
pub open spec fn first_member_lead(pretty: bool) -> Seq<char> {
    if pretty {
        "\n  \""@
    } else {
        "\""@
    }
}

/// What stands between two members of an object.
pub open spec fn next_member_lead(pretty: bool) -> Seq<char> {
    if pretty {
        ",\n  \""@
    } else {
        ",\""@
    }
}

/// What stands between the key of a member and the first item of its array.
pub open spec fn first_item_lead(pretty: bool) -> Seq<char> {
    if pretty {
        "\": [\n    "@
    } else {
        "\":["@
    }
}

/// What stands between two items of an array.
pub open spec fn next_item_lead(pretty: bool) -> Seq<char> {
    if pretty {
        ",\n    "@
    } else {
        ","@
    }
}

/// What ends an array that has items.
pub open spec fn array_end(pretty: bool) -> Seq<char> {
    if pretty {
        "\n  ]"@
    } else {
        "]"@
    }
}

/// What ends an object that has members.
pub open spec fn object_end(pretty: bool) -> Seq<char> {
    if pretty {
        "\n}"@
    } else {
        "}"@
    }
}

/// The first `n` keys as items of an array.
pub open spec fn items_text(keys: Seq<Seq<char>>, n: int, pretty: bool) -> Seq<char>
    decreases n,
{
    if n <= 0 || n > keys.len() {
        Seq::empty()
    } else if n == 1 {
        json_string_text(keys[0])
    } else {
        items_text(keys, n - 1, pretty) + next_item_lead(pretty) + json_string_text(keys[n - 1])
    }
}

/// One bucket as a member of the object, without what leads up to it: the
/// rest of its key, and its array.
pub open spec fn member_text(hash: u64, keys: Seq<Seq<char>>, pretty: bool) -> Seq<char> {
    if keys.len() == 0 {
        decimal_text(hash as nat) + if pretty {
            "\": []"@
        } else {
            "\":[]"@
        }
    } else {
        decimal_text(hash as nat) + first_item_lead(pretty) + items_text(
            keys,
            keys.len() as int,
            pretty,
        ) + array_end(pretty)
    }
}

/// The buckets under the first `n` of `hashes` as members of the object.
pub open spec fn members_text(m: BucketMap, hashes: Seq<u64>, n: int, pretty: bool) -> Seq<char>
    decreases n,
{
    if n <= 0 || n > hashes.len() {
        Seq::empty()
    } else if n == 1 {
        first_member_lead(pretty) + member_text(hashes[0], m[hashes[0]], pretty)
    } else {
        members_text(m, hashes, n - 1, pretty) + next_member_lead(pretty) + member_text(
            hashes[n - 1],
            m[hashes[n - 1]],
            pretty,
        )
    }
}

/// The text of an index.
pub open spec fn index_text(m: BucketMap, pretty: bool) -> Seq<char> {
    if m.dom().len() == 0 {
        "{}"@
    } else {
        "{"@ + members_text(m, sorted_hashes(m.dom()), m.dom().len() as int, pretty) + object_end(
            pretty,
        )
    }
}

/// The integrity digest of an index: the SHA-256 digest of its compact text.
pub open spec fn spec_index_hash(m: BucketMap) -> Seq<char> {
    sha256_hex_text(encode_utf8(index_text(m, false)))
}

fn write_items(out: &mut String, keys: &Vec<String>, pretty: bool)
    requires
        keys@.len() > 0,
    ensures
        final(out)@ == old(out)@ + items_text(keys_view(keys@), keys@.len() as int, pretty),
{
    let ghost names = keys_view(keys@);
    out.append(json_quote(keys[0].as_str()).as_str());
    let mut i: usize = 1;
    while i < keys.len()
        invariant
            1 <= i <= keys.len(),
            names == keys_view(keys@),
            out@ == old(out)@ + items_text(names, i as int, pretty),
        decreases keys.len() - i,
    {
        out.append(
            if pretty {
                ",\n    "
            } else {
                ","
            },
        );
        out.append(json_quote(keys[i].as_str()).as_str());
        assert(out@ =~= old(out)@ + items_text(names, i + 1, pretty));
        i += 1;
    }
}

fn write_member(out: &mut String, bucket: &Bucket, pretty: bool)
    ensures
        final(out)@ == old(out)@ + member_text(bucket.hash, keys_view(bucket.keys@), pretty),
{
    out.append(decimal_string(bucket.hash).as_str());
    if bucket.keys.len() == 0 {
        out.append(
            if pretty {
                "\": []"
            } else {
                "\":[]"
            },
        );
    } else {
        out.append(
            if pretty {
                "\": [\n    "
            } else {
                "\":["
            },
        );
        write_items(out, &bucket.keys, pretty);
        out.append(
            if pretty {
                "\n  ]"
            } else {
                "]"
            },
        );
    }
    assert(out@ =~= old(out)@ + member_text(bucket.hash, keys_view(bucket.keys@), pretty));
}

/// The text of the index that the buckets make: compact, or pretty.
pub fn write_index(buckets: &Vec<Bucket>, pretty: bool) -> (r: String)
    requires
        buckets_sorted(buckets@),
    ensures
        r@ == index_text(buckets_view(buckets@), pretty),
{
    let ghost map = buckets_view(buckets@);
    let ghost hashes = sorted_hashes(map.dom());
    proof {
        lemma_buckets_len(buckets@);
        lemma_sorted_hashes_of_buckets(buckets@);
    }
    if buckets.len() == 0 {
        return "{}".to_owned();
    }
    let mut out = "{".to_owned();
    out.append(
        if pretty {
            "\n  \""
        } else {
            "\""
        },
    );
    write_member(&mut out, &buckets[0], pretty);
    proof {
        lemma_buckets_lookup(buckets@, 0);
        assert(out@ =~= "{"@ + members_text(map, hashes, 1, pretty));
    }
    let mut i: usize = 1;
    while i < buckets.len()
        invariant
            1 <= i <= buckets.len(),
            buckets_sorted(buckets@),
            map == buckets_view(buckets@),
            hashes == bucket_hashes(buckets@),
            out@ == "{"@ + members_text(map, hashes, i as int, pretty),
        decreases buckets.len() - i,
    {
        out.append(
            if pretty {
                ",\n  \""
            } else {
                ",\""
            },
        );
        write_member(&mut out, &buckets[i], pretty);
        proof {
            lemma_buckets_lookup(buckets@, i as int);
            assert(out@ =~= "{"@ + members_text(map, hashes, i + 1, pretty));
        }
        i += 1;
    }
    out.append(
        if pretty {
            "\n}"
        } else {
            "}"
        },
    );
    out
}

/// The integrity digest of the index that the buckets make.
pub fn calculate_index_hash(buckets: &Vec<Bucket>) -> (r: String)
    requires
        buckets_sorted(buckets@),
    ensures
        r@ == spec_index_hash(buckets_view(buckets@)),
{
    let text = write_index(buckets, false);
    calculate_sha256(text.as_str())
}

} // verus!
