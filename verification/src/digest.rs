//! Integrity records: the SHA-256 digest of a canonical byte form of the
//! records, written as lower-case hexadecimal text.
//!
//! The byte form of the records is, for each record in rising key order, the
//! UTF-8 bytes of the key followed by the bytes of the value. The bytes of a
//! value are the writes that feed its structural hash, one after the other,
//! so they do not depend on the order in which an object's members came.

use vstd::prelude::*;
use vstd::string::StrSliceExecFns;
use vstd::utf8::encode_utf8;
use sha2::Digest;
use crate::hashing::{
    emit, json_writes, member_keys, sorted_keys, writes_of, lemma_sorted_keys_of_members,
};
use crate::members::lemma_members_len;
use crate::text::{same_text, trim, trimmed};
use crate::value::{members_view, members_wf, Json, Member, lemma_members_lookup};

verus! {

/// The SHA-256 digest of a byte string, as 64 lower-case hexadecimal digits.
pub uninterp spec fn sha256_hex_text(data: Seq<u8>) -> Seq<char>;

/// Byte strings, one after the other.
pub open spec fn flat(s: Seq<Seq<u8>>) -> Seq<u8>
    decreases s.len(),
{
    if s.len() == 0 {
        Seq::empty()
    } else {
        flat(s.drop_last()) + s.last()
    }
}

/// The bytes of a value.
pub open spec fn value_bytes(j: Json) -> Seq<u8> {
    flat(json_writes(j))
}

/// The bytes of the records under the first `n` of `keys`: for each the
/// bytes of its key, then the bytes of its value.
pub open spec fn records_bytes(m: Map<Seq<char>, Json>, keys: Seq<Seq<char>>, n: int) -> Seq<u8>
    decreases n,
{
    if n <= 0 || n > keys.len() {
        Seq::empty()
    } else {
        records_bytes(m, keys, n - 1) + encode_utf8(keys[n - 1]) + value_bytes(m[keys[n - 1]])
    }
}

/// The canonical byte form of a set of records.
pub open spec fn data_bytes(m: Map<Seq<char>, Json>) -> Seq<u8> {
    records_bytes(m, sorted_keys(m.dom()), m.dom().len() as int)
}

/// The integrity digest of a set of records.
pub open spec fn spec_data_hash(m: Map<Seq<char>, Json>) -> Seq<char> {
    sha256_hex_text(data_bytes(m))
}

/// Computes a SHA-256 digest with `Sha256::new`, `update` and `finalize` of
/// the crate `sha2` and formats it with `{:x}`. The result is a function of
/// the bytes alone; which function, this library takes from that crate.
#[verifier::external_body]
fn sha256_hex(data: &[u8]) -> (r: String)
    ensures
        r@ == sha256_hex_text(data@),
{
    let mut hasher = sha2::Sha256::new();
    hasher.update(data);
    format!("{:x}", hasher.finalize())
}

/// The SHA-256 digest of the UTF-8 bytes of a text, in hexadecimal.
pub fn calculate_sha256(data: &str) -> (r: String)
    ensures
        r@ == sha256_hex_text(encode_utf8(data@)),
{
    sha256_hex(data.as_bytes())
}

fn append_bytes(out: &mut Vec<u8>, bytes: &Vec<u8>)
    ensures
        final(out)@ == old(out)@ + bytes@,
{
    let mut i: usize = 0;
    while i < bytes.len()
        invariant
            i <= bytes.len(),
            out@ == old(out)@ + bytes@.subrange(0, i as int),
        decreases bytes.len() - i,
    {
        out.push(bytes[i]);
        assert(out@ =~= old(out)@ + bytes@.subrange(0, i + 1));
        i += 1;
    }
    assert(bytes@.subrange(0, bytes@.len() as int) =~= bytes@);
}

fn append_flat(out: &mut Vec<u8>, writes: &Vec<Vec<u8>>)
    ensures
        final(out)@ == old(out)@ + flat(writes_of(writes@)),
{
    let mut i: usize = 0;
    assert(writes_of(writes@).subrange(0, 0) =~= Seq::<Seq<u8>>::empty());
    while i < writes.len()
        invariant
            i <= writes.len(),
            out@ == old(out)@ + flat(writes_of(writes@).subrange(0, i as int)),
        decreases writes.len() - i,
    {
        let ghost prefix = writes_of(writes@).subrange(0, i + 1);
        proof {
            assert(prefix.drop_last() =~= writes_of(writes@).subrange(0, i as int));
            assert(prefix.last() == writes@[i as int]@);
        }
        append_bytes(out, &writes[i]);
        i += 1;
    }
    assert(writes_of(writes@).subrange(0, writes@.len() as int) =~= writes_of(writes@));
}

/// The canonical byte form of records.
pub fn canonical_bytes(data: &Vec<Member>) -> (r: Vec<u8>)
    requires
        members_wf(data@),
    ensures
        r@ == data_bytes(members_view(data@)),
{
    let ghost map = members_view(data@);
    let ghost keys = sorted_keys(map.dom());
    proof {
        lemma_members_len(data@);
        lemma_sorted_keys_of_members(data@);
    }
    let mut out: Vec<u8> = Vec::new();
    let mut i: usize = 0;
    while i < data.len()
        invariant
            i <= data.len(),
            members_wf(data@),
            map == members_view(data@),
            keys == member_keys(data@),
            out@ == records_bytes(map, keys, i as int),
        decreases data.len() - i,
    {
        let key_bytes = data[i].key.as_str().as_bytes_vec();
        append_bytes(&mut out, &key_bytes);
        let mut writes: Vec<Vec<u8>> = Vec::new();
        emit(&data[i].value, &mut writes);
        append_flat(&mut out, &writes);
        proof {
            lemma_members_lookup(data@, i as int);
            assert(writes_of(writes@) =~= json_writes(data@[i as int].value@));
        }
        i += 1;
    }
    out
}

/// The integrity digest of records.
pub fn create_data_hash(data: &Vec<Member>) -> (r: String)
    requires
        members_wf(data@),
    ensures
        r@ == spec_data_hash(members_view(data@)),
{
    let bytes = canonical_bytes(data);
    sha256_hex(bytes.as_slice())
}

/// The integrity digest of records.
pub fn calculate_data_hash(data: &Vec<Member>) -> (r: String)
    requires
        members_wf(data@),
    ensures
        r@ == spec_data_hash(members_view(data@)),
{
    create_data_hash(data)
}

/// Whether the integrity digest of records is the expected one, letter for
/// letter.
pub fn verify_data_hash(data: &Vec<Member>, expected_hash: &str) -> (r: bool)
    requires
        members_wf(data@),
    ensures
        r == (spec_data_hash(members_view(data@)) == expected_hash@),
{
    let current = calculate_data_hash(data);
    same_text(current.as_str(), expected_hash)
}

/// Whether a stored integrity record is the digest of the records. White
/// space around the stored text does not count. `None` stands for a record
/// that could not be read: it never matches.
pub fn verify_data_integrity(data: &Vec<Member>, stored_hash: Option<&str>) -> (r: bool)
    requires
        members_wf(data@),
    ensures
        r == match stored_hash {
            Some(stored) => trimmed(stored@) == spec_data_hash(members_view(data@)),
            None => false,
        },
{
    match stored_hash {
        Some(stored) => {
            let current = create_data_hash(data);
            same_text(trim(stored), current.as_str())
        },
        None => false,
    }
}

} // verus!
