//! The vectors of the vector tool and their binary file: for each vector
//! its length as eight little-endian bytes, then each of its numbers as
//! eight little-endian bytes. A number is the bit pattern of a double; what
//! the numbers mean is the caller's.

use vstd::prelude::*;
use vstd::bytes::{
    spec_u64_from_le_bytes, spec_u64_to_le_bytes, u64_from_le_bytes, u64_to_le_bytes,
    lemma_auto_spec_u64_to_from_le_bytes,
};
use vstd::slice::slice_subrange;

verus! {

/// An ordered collection of vectors, and the path of the file in which it is
/// kept.
#[derive(Debug, PartialEq, Eq)]
pub struct VectorDB {
    pub vectors: Vec<Vec<u64>>,
    pub file_path: String,
}

/// The vectors of a list, each as a sequence of numbers.
pub open spec fn vectors_view(vs: Seq<Vec<u64>>) -> Seq<Seq<u64>> {
    Seq::new(vs.len(), |i: int| vs[i]@)
}

/// The bytes of the numbers of a vector from position `i` on.
pub open spec fn items_bytes(v: Seq<u64>, i: int) -> Seq<u8>
    decreases v.len() - i,
{
    if i < 0 || i >= v.len() {
        Seq::empty()
    } else {
        spec_u64_to_le_bytes(v[i]) + items_bytes(v, i + 1)
    }
}

/// The bytes of the vectors from position `i` on: for each its length, then
/// its numbers.
pub open spec fn vectors_bytes(vs: Seq<Seq<u64>>, i: int) -> Seq<u8>
    decreases vs.len() - i,
{
    if i < 0 || i >= vs.len() {
        Seq::empty()
    } else {
        spec_u64_to_le_bytes(vs[i].len() as u64) + items_bytes(vs[i], 0) + vectors_bytes(vs, i + 1)
    }
}

/// The number that stands in the eight bytes at `at`.
pub open spec fn word_at(buf: Seq<u8>, at: int) -> u64 {
    spec_u64_from_le_bytes(buf.subrange(at, at + 8))
}

/// The numbers that are read from `at` on: `count` of them, or as many as
/// there are eight bytes for.
pub open spec fn read_items(buf: Seq<u8>, at: int, count: nat) -> Seq<u64>
    decreases count,
{
    if count == 0 || at < 0 || at + 8 > buf.len() {
        Seq::empty()
    } else {
        seq![word_at(buf, at)] + read_items(buf, at + 8, (count - 1) as nat)
    }
}

/// The vector that is read at `at`: its length, then as many numbers.
pub open spec fn first_vector(buf: Seq<u8>, at: int) -> Seq<u64> {
    read_items(buf, at + 8, word_at(buf, at) as nat)
}

/// The vectors that are read from `at` on, as long as there are eight bytes
/// for a length. A vector that the end of the bytes cuts short is read as
/// far as it goes.
pub open spec fn read_vectors(buf: Seq<u8>, at: int) -> Seq<Seq<u64>>
    decreases buf.len() - at,
{
    if at < 0 || at + 8 > buf.len() {
        Seq::empty()
    } else {
        seq![first_vector(buf, at)] + if at + 8 + 8 * first_vector(buf, at).len() <= buf.len() {
            read_vectors(buf, at + 8 + 8 * first_vector(buf, at).len())
        } else {
            Seq::empty()
        }
    }
}

proof fn lemma_items_bytes_len(v: Seq<u64>, i: int)
    requires
        0 <= i <= v.len(),
    ensures
        items_bytes(v, i).len() == 8 * (v.len() - i),
    decreases v.len() - i,
{
    lemma_auto_spec_u64_to_from_le_bytes();
    if i < v.len() {
        lemma_items_bytes_len(v, i + 1);
    }
}

/// Reading the numbers of a vector back from where their bytes stand gives
/// the numbers.
proof fn lemma_read_items(buf: Seq<u8>, at: int, v: Seq<u64>, i: int)
    requires
        0 <= i <= v.len(),
        0 <= at,
        at + 8 * (v.len() - i) <= buf.len(),
        buf.subrange(at, at + 8 * (v.len() - i)) == items_bytes(v, i),
    ensures
        read_items(buf, at, (v.len() - i) as nat) == v.subrange(i, v.len() as int),
    decreases v.len() - i,
{
    lemma_auto_spec_u64_to_from_le_bytes();
    if i < v.len() {
        let whole = buf.subrange(at, at + 8 * (v.len() - i));
        let head = spec_u64_to_le_bytes(v[i]);
        let tail = items_bytes(v, i + 1);
        lemma_items_bytes_len(v, i + 1);
        assert(whole == head + tail);
        assert(buf.subrange(at, at + 8) =~= whole.subrange(0, 8));
        assert(whole.subrange(0, 8) =~= head);
        assert(buf.subrange(at + 8, at + 8 + 8 * (v.len() - i - 1)) =~= whole.subrange(
            8,
            8 * (v.len() - i),
        ));
        assert(whole.subrange(8, 8 * (v.len() - i)) =~= tail);
        lemma_read_items(buf, at + 8, v, i + 1);
        assert(v.subrange(i, v.len() as int) =~= seq![v[i]] + v.subrange(i + 1, v.len() as int));
    } else {
        assert(v.subrange(i, v.len() as int) =~= Seq::<u64>::empty());
    }
}

proof fn lemma_vectors_bytes_len(vs: Seq<Seq<u64>>, i: int)
    requires
        0 <= i < vs.len(),
    ensures
        vectors_bytes(vs, i).len() == 8 + 8 * vs[i].len() + vectors_bytes(vs, i + 1).len(),
{
    lemma_auto_spec_u64_to_from_le_bytes();
    lemma_items_bytes_len(vs[i], 0);
}

/// Round trip of the binary file: the vectors that are read from the bytes
/// of vectors are those vectors.
pub proof fn law_vectors_round_trip(vs: Seq<Seq<u64>>)
    requires
        forall|i: int| 0 <= i < vs.len() ==> (#[trigger] vs[i]).len() <= u64::MAX,
    ensures
        read_vectors(vectors_bytes(vs, 0), 0) == vs,
{
    assert(vectors_bytes(vs, 0).subrange(0, vectors_bytes(vs, 0).len() as int) =~= vectors_bytes(
        vs,
        0,
    ));
    lemma_read_vectors(vectors_bytes(vs, 0), 0, vs, 0);
    assert(vs.subrange(0, vs.len() as int) =~= vs);
}

proof fn lemma_read_vectors(buf: Seq<u8>, at: int, vs: Seq<Seq<u64>>, i: int)
    requires
        0 <= i <= vs.len(),
        0 <= at <= buf.len(),
        buf.subrange(at, buf.len() as int) == vectors_bytes(vs, i),
        forall|k: int| 0 <= k < vs.len() ==> (#[trigger] vs[k]).len() <= u64::MAX,
    ensures
        read_vectors(buf, at) == vs.subrange(i, vs.len() as int),
    decreases vs.len() - i,
{
    lemma_auto_spec_u64_to_from_le_bytes();
    if i < vs.len() {
        let whole = buf.subrange(at, buf.len() as int);
        let v = vs[i];
        let n = v.len() as int;
        let head = spec_u64_to_le_bytes(v.len() as u64);
        let body = items_bytes(v, 0);
        let rest = vectors_bytes(vs, i + 1);
        lemma_items_bytes_len(v, 0);
        lemma_vectors_bytes_len(vs, i);
        assert(whole == head + body + rest);
        assert(buf.subrange(at, at + 8) =~= whole.subrange(0, 8));
        assert(whole.subrange(0, 8) =~= head);
        assert(word_at(buf, at) == v.len() as u64);
        assert(buf.subrange(at + 8, at + 8 + 8 * n) =~= whole.subrange(8, 8 + 8 * n));
        assert(whole.subrange(8, 8 + 8 * n) =~= body);
        lemma_read_items(buf, at + 8, v, 0);
        assert(v.subrange(0, v.len() as int) =~= v);
        let next = at + 8 + 8 * n;
        assert(buf.subrange(next, buf.len() as int) =~= whole.subrange(
            8 + 8 * n,
            whole.len() as int,
        ));
        assert(whole.subrange(8 + 8 * n, whole.len() as int) =~= rest);
        lemma_read_vectors(buf, next, vs, i + 1);
        assert(vs.subrange(i, vs.len() as int) =~= seq![v] + vs.subrange(i + 1, vs.len() as int));
    } else {
        assert(buf.subrange(at, buf.len() as int).len() == 0);
        assert(vs.subrange(i, vs.len() as int) =~= Seq::<Seq<u64>>::empty());
    }
}

fn push_bytes(out: &mut Vec<u8>, bytes: &Vec<u8>)
    ensures
        final(out)@ == old(out)@ + bytes@,
{
    let mut i: usize = 0;
    while i < bytes.len()
        invariant
            i <= bytes.len(),
            out@ == old(out)@ + bytes@.subrange(0, i as int),
        decreases bytes.len() - i,
    {
        out.push(bytes[i]);
        assert(out@ =~= old(out)@ + bytes@.subrange(0, i + 1));
        i += 1;
    }
    assert(bytes@.subrange(0, bytes@.len() as int) =~= bytes@);
}

/// The bytes of the binary file of the vectors.
pub fn encode_vectors(vectors: &Vec<Vec<u64>>) -> (out: Vec<u8>)
    ensures
        out@ == vectors_bytes(vectors_view(vectors@), 0),
{
    let ghost vs = vectors_view(vectors@);
    let mut out: Vec<u8> = Vec::new();
    let mut i: usize = 0;
    while i < vectors.len()
        invariant
            i <= vectors.len(),
            vs == vectors_view(vectors@),
            out@ + vectors_bytes(vs, i as int) == vectors_bytes(vs, 0),
        decreases vectors.len() - i,
    {
        let v = &vectors[i];
        let ghost before = out@;
        push_bytes(&mut out, &u64_to_le_bytes(v.len() as u64));
        let ghost with_len = out@;
        let mut k: usize = 0;
        while k < v.len()
            invariant
                k <= v.len(),
                out@ + items_bytes(v@, k as int) == with_len + items_bytes(v@, 0),
            decreases v.len() - k,
        {
            let ghost prev = out@;
            push_bytes(&mut out, &u64_to_le_bytes(v[k]));
            assert(out@ + items_bytes(v@, k + 1) =~= prev + items_bytes(v@, k as int));
            k += 1;
        }
        proof {
            assert(vs[i as int] == v@);
            assert(out@ =~= with_len + items_bytes(v@, 0));
            assert(out@ + vectors_bytes(vs, i + 1) =~= before + vectors_bytes(vs, i as int));
        }
        i += 1;
    }
    assert(out@ =~= vectors_bytes(vs, 0));
    out
}

/// The vectors that the bytes of a binary file hold.
pub fn decode_vectors(buf: &[u8]) -> (loaded: Vec<Vec<u64>>)
    ensures
        vectors_view(loaded@) == read_vectors(buf@, 0),
{
    let mut loaded: Vec<Vec<u64>> = Vec::new();
    let mut idx: usize = 0;
    assert(vectors_view(loaded@) =~= Seq::<Seq<u64>>::empty());
    while buf.len() >= 8 && idx <= buf.len() - 8
        invariant
            idx <= buf.len(),
            vectors_view(loaded@) + read_vectors(buf@, idx as int) == read_vectors(buf@, 0),
        decreases buf.len() - idx,
    {
        let ghost start = idx as int;
        let ghost done = vectors_view(loaded@);
        let len = u64_from_le_bytes(slice_subrange(buf, idx, idx + 8));
        idx += 8;
        let ghost first = idx as int;
        let mut v: Vec<u64> = Vec::new();
        let mut count: u64 = 0;
        while count < len && buf.len() >= 8 && idx <= buf.len() - 8
            invariant
                count <= len,
                first <= idx <= buf.len(),
                idx == first + 8 * v@.len(),
                v@ + read_items(buf@, idx as int, (len - count) as nat) == read_items(
                    buf@,
                    first,
                    len as nat,
                ),
            decreases len - count,
        {
            let ghost prev = v@;
            let x = u64_from_le_bytes(slice_subrange(buf, idx, idx + 8));
            v.push(x);
            proof {
                assert(v@ + read_items(buf@, idx + 8, (len - count - 1) as nat) =~= prev
                    + read_items(buf@, idx as int, (len - count) as nat));
            }
            idx += 8;
            count += 1;
        }
        proof {
            assert(read_items(buf@, idx as int, (len - count) as nat) =~= Seq::<u64>::empty());
            assert(v@ =~= read_items(buf@, first, len as nat));
        }
        loaded.push(v);
        proof {
            assert(vectors_view(loaded@) =~= done.push(v@));
            assert(vectors_view(loaded@) + read_vectors(buf@, idx as int) =~= done + read_vectors(
                buf@,
                start,
            ));
        }
    }
    proof {
        assert(read_vectors(buf@, idx as int) =~= Seq::<Seq<u64>>::empty());
        assert(vectors_view(loaded@) =~= read_vectors(buf@, 0));
    }
    loaded
}

impl View for VectorDB {
    type V = Seq<Seq<u64>>;

    open spec fn view(&self) -> Seq<Seq<u64>> {
        vectors_view(self.vectors@)
    }
}

impl VectorDB {
    /// The collection that is kept in the file at a path, with the vectors
    /// that were found there.
    pub fn new(file_path: &str, found: Vec<Vec<u64>>) -> (db: VectorDB)
        ensures
            db.vectors == found,
            db.file_path@ == file_path@,
    {
        VectorDB { vectors: found, file_path: file_path.to_owned() }
    }

    /// Adds a vector at the end, unless it is empty. Returns whether it was
    /// added, which is when a save is due.
    pub fn add_vector(&mut self, vector: Vec<u64>) -> (added: bool)
        ensures
            added == (vector@.len() > 0),
            final(self).file_path == old(self).file_path,
            final(self)@ == if added {
                old(self)@.push(vector@)
            } else {
                old(self)@
            },
    {
        if vector.len() > 0 {
            self.vectors.push(vector);
            assert(self@ =~= old(self)@.push(vector@));
            true
        } else {
            false
        }
    }

    /// Takes the vector at a position out, if there is one. Returns whether
    /// there was, which is when a save is due.
    pub fn delete_vector(&mut self, index: usize) -> (deleted: bool)
        ensures
            deleted == (index < old(self)@.len()),
            final(self).file_path == old(self).file_path,
            final(self)@ == if deleted {
                old(self)@.remove(index as int)
            } else {
                old(self)@
            },
    {
        if index < self.vectors.len() {
            self.vectors.remove(index);
            assert(self@ =~= old(self)@.remove(index as int));
            true
        } else {
            false
        }
    }

    /// The vectors, in order.
    pub fn list_vectors(&self) -> (r: &Vec<Vec<u64>>)
        ensures
            *r == self.vectors,
    {
        &self.vectors
    }

    /// The bytes of the binary file of the vectors.
    pub fn save_as_binary(&self) -> (out: Vec<u8>)
        ensures
            out@ == vectors_bytes(self@, 0),
    {
        encode_vectors(&self.vectors)
    }

    /// Puts the vectors that the bytes of a binary file hold in place of
    /// those of the collection. A save is due after that.
    pub fn load_from_binary(&mut self, buf: &[u8])
        ensures
            final(self).file_path == old(self).file_path,
            final(self)@ == read_vectors(buf@, 0),
    {
        self.vectors = decode_vectors(buf);
    }
}

} // verus!
