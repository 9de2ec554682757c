//! The byte forms that bincode gives to keys, signatures and signature
//! blobs: every row and every byte string goes out as its length in eight
//! bytes, most significant first, and then its items.

use crate::wire::{be_u64, from_be_u64, lemma_be_u64_read_back};
use bincode::serde::{DeserializeError, SerializeError};
use bincode::SizeLimit;
use vstd::prelude::*;

verus! {

/// bincode's error of writing, carried through unopened.
#[verifier::external_type_specification]
#[verifier::external_body]
pub struct ExSerializeError(SerializeError);

/// bincode's error of reading, carried through unopened.
#[verifier::external_type_specification]
#[verifier::external_body]
pub struct ExDeserializeError(DeserializeError);

/// A row of pairs of byte strings, as a mathematical value.
pub type Pairs = Seq<(Seq<u8>, Seq<u8>)>;

/// The value that a vector of pairs of byte vectors holds.
pub open spec fn sights(row: Seq<(Vec<u8>, Vec<u8>)>) -> Pairs {
    Seq::new(row.len(), |i: int| (row[i].0@, row[i].1@))
}

/// The bytes of a byte string: its length, then its bytes.
pub open spec fn string_wire(s: Seq<u8>) -> Seq<u8> {
    be_u64(s.len() as u64) + s
}

/// The bytes of the pairs of a row, one pair after the other, each as its
/// two byte strings.
pub open spec fn row_wire(row: Pairs) -> Seq<u8>
    decreases row.len(),
{
    if row.len() == 0 {
        Seq::empty()
    } else {
        string_wire(row[0].0) + string_wire(row[0].1) + row_wire(row.skip(1))
    }
}

/// The bytes of a row of pairs: the number of pairs, then the pairs.
pub open spec fn pairs_wire(row: Pairs) -> Seq<u8> {
    be_u64(row.len() as u64) + row_wire(row)
}

/// The bytes of a signature blob: its three parts as byte strings.
pub open spec fn blob_wire(tree: Seq<u8>, otk: Seq<u8>, sign: Seq<u8>) -> Seq<u8> {
    string_wire(tree) + string_wire(otk) + string_wire(sign)
}

/// Reads a byte string from the front of `b`: the string and what follows
/// it, or `None` where `b` is shorter than the length it begins with asks.
pub open spec fn string_parse(b: Seq<u8>) -> Option<(Seq<u8>, Seq<u8>)> {
    if b.len() < 8 {
        None
    } else {
        let count = from_be_u64(b.take(8));
        let body = b.skip(8);
        if count <= body.len() {
            Some((body.take(count as int), body.skip(count as int)))
        } else {
            None
        }
    }
}

/// Reads `count` pairs of byte strings from the front of `b`.
pub open spec fn row_parse(b: Seq<u8>, count: nat) -> Option<(Pairs, Seq<u8>)>
    decreases count,
{
    if count == 0 {
        Some((Seq::empty(), b))
    } else {
        match string_parse(b) {
            Some((x, after_x)) => match string_parse(after_x) {
                Some((y, after_y)) => match row_parse(after_y, (count - 1) as nat) {
                    Some((row, rest)) => Some((seq![(x, y)] + row, rest)),
                    None => None,
                },
                None => None,
            },
            None => None,
        }
    }
}

/// Reads a row of pairs from the front of `b`; what follows the row is left
/// unread.
pub open spec fn pairs_parse(b: Seq<u8>) -> Option<Pairs> {
    if b.len() < 8 {
        None
    } else {
        match row_parse(b.skip(8), from_be_u64(b.take(8)) as nat) {
            Some((row, _)) => Some(row),
            None => None,
        }
    }
}

/// Reads the three parts of a signature blob from the front of `b`; what
/// follows them is left unread.
pub open spec fn blob_parse(b: Seq<u8>) -> Option<(Seq<u8>, Seq<u8>, Seq<u8>)> {
    match string_parse(b) {
        Some((tree, after_tree)) => match string_parse(after_tree) {
            Some((otk, after_otk)) => match string_parse(after_otk) {
                Some((sign, _)) => Some((tree, otk, sign)),
                None => None,
            },
            None => None,
        },
        None => None,
    }
}

/// Whether the lengths in a row of pairs fit the eight bytes that carry
/// them.
pub open spec fn pairs_fit(row: Pairs) -> bool {
    &&& row.len() <= u64::MAX
    &&& forall|i: int|
        0 <= i < row.len() ==> (#[trigger] row[i]).0.len() <= u64::MAX && row[i].1.len()
            <= u64::MAX
}

/// A byte string that was written is read back, and what followed it is
/// left.
pub proof fn lemma_string_back(s: Seq<u8>, tail: Seq<u8>)
    requires
        s.len() <= u64::MAX,
    ensures
        string_parse(string_wire(s) + tail) == Some((s, tail)),
{
    let b = string_wire(s) + tail;
    lemma_be_u64_read_back(s.len() as u64);
    assert(b.take(8) =~= be_u64(s.len() as u64));
    assert(b.skip(8) =~= s + tail);
    assert((s + tail).take(s.len() as int) =~= s);
    assert((s + tail).skip(s.len() as int) =~= tail);
}

/// The pairs of a row that were written are read back.
pub proof fn lemma_row_back(row: Pairs, tail: Seq<u8>)
    requires
        pairs_fit(row),
    ensures
        row_parse(row_wire(row) + tail, row.len()) == Some((row, tail)),
    decreases row.len(),
{
    if row.len() == 0 {
        assert(row_wire(row) + tail =~= tail);
        assert(row =~= Pairs::empty());
    } else {
        let rest = row.skip(1);
        let after_y = row_wire(rest) + tail;
        let after_x = string_wire(row[0].1) + after_y;
        assert(row_wire(row) + tail =~= string_wire(row[0].0) + after_x);
        lemma_string_back(row[0].0, after_x);
        lemma_string_back(row[0].1, after_y);
        assert forall|i: int| 0 <= i < rest.len() implies (#[trigger] rest[i]).0.len()
            <= u64::MAX && rest[i].1.len() <= u64::MAX by {
            assert(rest[i] == row[i + 1]);
        }
        lemma_row_back(rest, tail);
        assert(seq![(row[0].0, row[0].1)] + rest =~= row);
    }
}

/// A row of pairs that was written is read back.
pub proof fn lemma_pairs_back(row: Pairs)
    requires
        pairs_fit(row),
    ensures
        pairs_parse(pairs_wire(row)) == Some(row),
{
    let b = pairs_wire(row);
    lemma_be_u64_read_back(row.len() as u64);
    assert(b.take(8) =~= be_u64(row.len() as u64));
    assert(b.skip(8) =~= row_wire(row) + Seq::<u8>::empty());
    lemma_row_back(row, Seq::<u8>::empty());
}

/// A signature blob that was written is read back.
pub proof fn lemma_blob_back(tree: Seq<u8>, otk: Seq<u8>, sign: Seq<u8>)
    requires
        tree.len() <= u64::MAX,
        otk.len() <= u64::MAX,
        sign.len() <= u64::MAX,
    ensures
        blob_parse(blob_wire(tree, otk, sign)) == Some((tree, otk, sign)),
{
    let after_otk = string_wire(sign) + Seq::<u8>::empty();
    let after_tree = string_wire(otk) + after_otk;
    assert(blob_wire(tree, otk, sign) =~= string_wire(tree) + after_tree);
    lemma_string_back(tree, after_tree);
    lemma_string_back(otk, after_otk);
    lemma_string_back(sign, Seq::<u8>::empty());
}

/// `bincode::serde::serialize`, without a size limit, on a vector of pairs
/// of byte vectors. The claim: it writes the number of pairs and then, for
/// each byte vector, its length and its bytes, every number in eight bytes,
/// most significant first; and writing into a vector, it does not fail.
#[verifier::external_body]
pub(crate) fn write_pairs(pairs: &Vec<(Vec<u8>, Vec<u8>)>) -> (out: Result<
    Vec<u8>,
    SerializeError,
>)
    ensures
        out is Ok,
        out->Ok_0@ == pairs_wire(sights(pairs@)),
{
    bincode::serde::serialize(pairs, SizeLimit::Infinite)
}

/// The bytes of a writing, which did not fail.
pub(crate) fn written(out: Result<Vec<u8>, SerializeError>) -> (bytes: Vec<u8>)
    requires
        out is Ok,
    ensures
        bytes == out->Ok_0,
{
    match out {
        Ok(bytes) => bytes,
        Err(_) => unreached(),
    }
}

/// `bincode::serde::deserialize` to a vector of pairs of byte vectors. The
/// claim: it reads a number of pairs and then, for each byte vector, its
/// length and as many bytes, and fails where the bytes end before that; it
/// does not look at what follows the row.
#[verifier::external_body]
pub(crate) fn read_pairs(bytes: &[u8]) -> (out: Result<Vec<(Vec<u8>, Vec<u8>)>, DeserializeError>)
    ensures
        match out {
            Ok(pairs) => pairs_parse(bytes@) == Some(sights(pairs@)),
            Err(_) => pairs_parse(bytes@) is None,
        },
{
    bincode::serde::deserialize(bytes)
}

/// `bincode::serde::serialize`, without a size limit, on the three parts of
/// a signature blob in their order: the authentication path, the one-time
/// public key, the one-time signature. The claim: it writes each part as
/// its length in eight bytes, most significant first, and its bytes; and
/// writing into a vector, it does not fail.
#[verifier::external_body]
pub(crate) fn write_blob(tree: Vec<u8>, otk: Vec<u8>, sign: Vec<u8>) -> (out: Result<
    Vec<u8>,
    SerializeError,
>)
    ensures
        out is Ok,
        out->Ok_0@ == blob_wire(tree@, otk@, sign@),
{
    bincode::serde::serialize(&(tree, otk, sign), SizeLimit::Infinite)
}

/// `bincode::serde::deserialize` to the three parts of a signature blob.
/// The claim: it reads, three times, a length and as many bytes, and fails
/// where the bytes end before that; it does not look at what follows.
#[verifier::external_body]
pub(crate) fn read_blob(bytes: &[u8]) -> (out: Result<(Vec<u8>, Vec<u8>, Vec<u8>), DeserializeError>)
    ensures
        match out {
            Ok(parts) => blob_parse(bytes@) == Some((parts.0@, parts.1@, parts.2@)),
            Err(_) => blob_parse(bytes@) is None,
        },
{
    bincode::serde::deserialize(bytes)
}

} // verus!
