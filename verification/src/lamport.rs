//! The one-time signature: a key of pairs of chain seeds, one pair for each
//! byte of a digest.

use crate::codec::{pairs_parse, pairs_wire, read_pairs, sights, write_pairs, Pairs};
use crate::utils::{chain, chained, eq};
use crate::VerifyError;
use bincode::serde::{DeserializeError, SerializeError};
use std::marker::PhantomData;
use vstd::prelude::*;

verus! {

/// A one-time key, private or public: pairs of byte strings in index order.
pub struct Key<H: crate::utils::Hash>(pub Vec<(Vec<u8>, Vec<u8>)>, pub PhantomData<H>);

impl<H: crate::utils::Hash> View for Key<H> {
    type V = Pairs;

    open spec fn view(&self) -> Pairs {
        sights(self.0@)
    }
}

impl<H: crate::utils::Hash> Clone for Key<H> {
    fn clone(&self) -> (copy: Key<H>)
        ensures
            copy@ == self@,
    {
        let mut pairs: Vec<(Vec<u8>, Vec<u8>)> = Vec::new();
        let mut i: usize = 0;
        while i < self.0.len()
            invariant
                i <= self.0@.len(),
                pairs@.len() == i,
                forall|j: int| 0 <= j < i ==> sights(pairs@)[j] == #[trigger] self@[j],
            decreases self.0@.len() - i,
        {
            let x = self.0[i].0.clone();
            let y = self.0[i].1.clone();
            pairs.push((x, y));
            i += 1;
        }
        let copy = Key(pairs, PhantomData);
        proof {
            assert(copy@ =~= self@);
        }
        copy
    }
}

/// The first byte strings of the pairs, laid end to end.
pub open spec fn firsts(key: Pairs) -> Seq<u8>
    decreases key.len(),
{
    if key.len() == 0 {
        Seq::empty()
    } else {
        firsts(key.drop_last()) + key.last().0
    }
}

/// The second byte strings of the pairs, laid end to end.
pub open spec fn seconds(key: Pairs) -> Seq<u8>
    decreases key.len(),
{
    if key.len() == 0 {
        Seq::empty()
    } else {
        seconds(key.drop_last()) + key.last().1
    }
}

impl<H: crate::utils::Hash> Key<H> {
    /// The two sides of the key, each laid end to end.
    fn sides(&self) -> (out: (Vec<u8>, Vec<u8>))
        ensures
            out.0@ == firsts(self@),
            out.1@ == seconds(self@),
    {
        let mut left: Vec<u8> = Vec::new();
        let mut right: Vec<u8> = Vec::new();
        let mut i: usize = 0;
        proof {
            assert(self@.take(0) =~= Pairs::empty());
        }
        while i < self.0.len()
            invariant
                i <= self.0@.len(),
                left@ == firsts(self@.take(i as int)),
                right@ == seconds(self@.take(i as int)),
            decreases self.0@.len() - i,
        {
            proof {
                let next = self@.take(i + 1);
                assert(next.drop_last() =~= self@.take(i as int));
                assert(next.last() == self@[i as int]);
            }
            left.extend_from_slice(self.0[i].0.as_slice());
            right.extend_from_slice(self.0[i].1.as_slice());
            i += 1;
        }
        proof {
            assert(self@.take(self.0@.len() as int) =~= self@);
        }
        (left, right)
    }
}

impl<H: crate::utils::Hash> PartialEq for Key<H> {
    /// Compares the two sides of the keys, each laid end to end, without
    /// stopping at the first difference.
    fn eq(&self, rhs: &Key<H>) -> (same: bool) {
        let mine = self.sides();
        let theirs = rhs.sides();
        let left = eq(mine.0.as_slice(), theirs.0.as_slice());
        let right = eq(mine.1.as_slice(), theirs.1.as_slice());
        left && right
    }
}

impl<H: crate::utils::Hash> vstd::std_specs::cmp::PartialEqSpecImpl for Key<H> {
    open spec fn obeys_eq_spec() -> bool {
        true
    }

    open spec fn eq_spec(&self, rhs: &Key<H>) -> bool {
        firsts(self@) == firsts(rhs@) && seconds(self@) == seconds(rhs@)
    }
}

/// The length of every chain: the bits of a digest.
pub open spec fn chain_length<H: crate::utils::Hash>() -> nat {
    8 * H::width()
}

/// Whether a key, private or public, has one pair for each byte of a
/// digest, each byte string of a pair as long as a digest.
pub open spec fn well_sized<H: crate::utils::Hash>(key: Pairs) -> bool {
    &&& key.len() == H::width()
    &&& forall|i: int|
        0 <= i < key.len() ==> (#[trigger] key[i]).0.len() == H::width() && key[i].1.len()
            == H::width()
}

/// The public key of a private key: the end of every chain.
pub open spec fn public_of<H: crate::utils::Hash>(private: Pairs) -> Pairs {
    Seq::new(
        private.len(),
        |i: int|
            (
                chained::<H>(private[i].0, chain_length::<H>()),
                chained::<H>(private[i].1, chain_length::<H>()),
            ),
    )
}

/// What a private key reveals for a digest: for the byte `v` at place `i`,
/// the first chain of pair `i` after `v + 1` steps and the second after the
/// remaining steps. Pairs and bytes go two by two as far as both reach.
pub open spec fn reveal_of<H: crate::utils::Hash>(private: Pairs, digest: Seq<u8>) -> Pairs {
    Seq::new(
        if digest.len() < private.len() {
            digest.len()
        } else {
            private.len()
        },
        |i: int|
            (
                chained::<H>(private[i].0, (digest[i] + 1) as nat),
                chained::<H>(private[i].1, (chain_length::<H>() - (digest[i] + 1)) as nat),
            ),
    )
}

/// The signature of `data` under a private key, before it is put in bytes.
pub open spec fn signature_of<H: crate::utils::Hash>(private: Pairs, data: Seq<u8>) -> Pairs {
    reveal_of::<H>(private, H::digest(data))
}

/// Whether what was revealed at place `i` walks on to the public key.
pub open spec fn reaches<H: crate::utils::Hash>(
    public: Pairs,
    revealed: Pairs,
    digest: Seq<u8>,
    i: int,
) -> bool {
    &&& chained::<H>(revealed[i].0, (chain_length::<H>() - (digest[i] + 1)) as nat)
        == public[i].0
    &&& chained::<H>(revealed[i].1, (digest[i] + 1) as nat) == public[i].1
}

/// Whether a public key accepts revealed pairs for `data`: the key and what
/// was revealed have a pair for each byte of a digest, and each pair that
/// was revealed walks on to the key's pair at its place.
pub open spec fn accepts<H: crate::utils::Hash>(public: Pairs, revealed: Pairs, data: Seq<u8>) -> bool {
    &&& public.len() == H::width()
    &&& revealed.len() == H::width()
    &&& forall|i: int|
        0 <= i < H::width() ==> #[trigger] reaches::<H>(public, revealed, H::digest(data), i)
}

/// The public key of a key with a pair for each byte of a digest is well
/// sized: the end of a chain is a digest.
pub proof fn lemma_public_sized<H: crate::utils::Hash>(private: Pairs)
    requires
        private.len() == H::width(),
    ensures
        well_sized::<H>(public_of::<H>(private)),
{
    H::width_in_range();
    let public = public_of::<H>(private);
    assert forall|i: int| 0 <= i < public.len() implies (#[trigger] public[i]).0.len()
        == H::width() && public[i].1.len() == H::width() by {
        let steps = chain_length::<H>();
        H::digest_has_width(chained::<H>(private[i].0, (steps - 1) as nat));
        H::digest_has_width(chained::<H>(private[i].1, (steps - 1) as nat));
    }
}

/// What a key with a pair for each byte of a digest signs, its own public
/// key accepts.
pub proof fn lemma_signature_accepted<H: crate::utils::Hash>(private: Pairs, data: Seq<u8>)
    requires
        private.len() == H::width(),
    ensures
        accepts::<H>(public_of::<H>(private), signature_of::<H>(private, data), data),
{
    let digest = H::digest(data);
    let public = public_of::<H>(private);
    let revealed = signature_of::<H>(private, data);
    H::digest_has_width(data);
    H::width_in_range();
    assert forall|i: int| 0 <= i < H::width() implies #[trigger] reaches::<H>(
        public,
        revealed,
        digest,
        i,
    ) by {
        let up = (digest[i] + 1) as nat;
        let down = (chain_length::<H>() - (digest[i] + 1)) as nat;
        assert(up + down == chain_length::<H>());
        crate::utils::lemma_chain_add::<H>(private[i].0, up, down);
        crate::utils::lemma_chain_add::<H>(private[i].1, down, up);
    }
}

/// What a key with a pair for each byte of a digest signs is, like the
/// key, well sized.
pub proof fn lemma_signature_sized<H: crate::utils::Hash>(private: Pairs, data: Seq<u8>)
    requires
        well_sized::<H>(private),
    ensures
        well_sized::<H>(signature_of::<H>(private, data)),
{
    H::width_in_range();
    H::digest_has_width(data);
    let digest = H::digest(data);
    let revealed = signature_of::<H>(private, data);
    assert forall|i: int| 0 <= i < revealed.len() implies (#[trigger] revealed[i]).0.len()
        == H::width() && revealed[i].1.len() == H::width() by {
        let up = (digest[i] + 1) as nat;
        let down = (chain_length::<H>() - (digest[i] + 1)) as nat;
        H::digest_has_width(chained::<H>(private[i].0, (up - 1) as nat));
        if down > 0 {
            H::digest_has_width(chained::<H>(private[i].1, (down - 1) as nat));
        }
    }
}

/// The lengths of a well sized row fit the bytes that carry them.
pub proof fn lemma_sized_fits<H: crate::utils::Hash>(row: Pairs)
    requires
        well_sized::<H>(row),
    ensures
        crate::codec::pairs_fit(row),
{
    H::width_in_range();
}

/// A key reads back from its bytes what it signed and wrote, and its
/// public key accepts that.
pub proof fn lemma_signed_bytes_accepted<H: crate::utils::Hash>(private: Pairs, data: Seq<u8>)
    requires
        well_sized::<H>(private),
    ensures
        pairs_parse(pairs_wire(signature_of::<H>(private, data))) == Some(
            signature_of::<H>(private, data),
        ),
        accepts::<H>(public_of::<H>(private), signature_of::<H>(private, data), data),
{
    lemma_signature_sized::<H>(private, data);
    lemma_sized_fits::<H>(signature_of::<H>(private, data));
    crate::codec::lemma_pairs_back(signature_of::<H>(private, data));
    lemma_signature_accepted::<H>(private, data);
}

/// `bytes` with the first `count` of them put to zero.
pub open spec fn zeroed(bytes: Seq<u8>, count: nat) -> Seq<u8> {
    Seq::new(
        bytes.len(),
        |i: int|
            if i < count {
                0u8
            } else {
                bytes[i]
            },
    )
}

/// Bytes of a signature whose first `H::width()` bytes were put to zero
/// read as a row of no pairs, which no key accepts.
pub proof fn lemma_zeroed_refused<H: crate::utils::Hash>(
    public: Pairs,
    sign: Seq<u8>,
    data: Seq<u8>,
)
    requires
        sign.len() >= H::width(),
    ensures
        pairs_parse(zeroed(sign, H::width())) == Some(Pairs::empty()),
        !accepts::<H>(public, pairs_parse(zeroed(sign, H::width())).unwrap(), data),
{
    H::width_in_range();
    let b = zeroed(sign, H::width());
    let head = b.take(8);
    assert(head[0] == 0 && head[1] == 0 && head[2] == 0 && head[3] == 0 && head[4] == 0
        && head[5] == 0 && head[6] == 0 && head[7] == 0);
    assert((0u8 as u64) << 56 | (0u8 as u64) << 48 | (0u8 as u64) << 40 | (0u8 as u64) << 32 | (
    0u8 as u64) << 24 | (0u8 as u64) << 16 | (0u8 as u64) << 8 | (0u8 as u64) == 0u64)
        by (bit_vector);
    assert(crate::wire::from_be_u64(head) == 0);
}

impl<H: crate::utils::Hash> Key<H> {
    /// Draws a private key from `rng`: a pair of seeds for each byte of a
    /// digest, each seed as long as a digest.
    pub fn new<R: crate::utils::RandomSource>(rng: &mut R) -> (key: Key<H>)
        ensures
            well_sized::<H>(key@),
    {
        let width = H::bytes();
        let mut pairs: Vec<(Vec<u8>, Vec<u8>)> = Vec::new();
        let mut i: usize = 0;
        while i < width
            invariant
                i <= width == H::width(),
                pairs@.len() == i,
                forall|j: int|
                    0 <= j < i ==> (#[trigger] pairs@[j]).0@.len() == width && pairs@[j].1@.len()
                        == width,
            decreases width - i,
        {
            let x = rng.random_bytes(width);
            let y = rng.random_bytes(width);
            pairs.push((x, y));
            i += 1;
        }
        Key(pairs, PhantomData)
    }

    /// Whether the key has a pair for each byte of a digest, each byte
    /// string of a pair as long as a digest.
    pub fn is_well_sized(&self) -> (yes: bool)
        ensures
            yes == well_sized::<H>(self@),
    {
        let width = H::bytes();
        if self.0.len() != width {
            return false;
        }
        let mut i: usize = 0;
        while i < width
            invariant
                i <= width == H::width(),
                self.0@.len() == width,
                forall|j: int|
                    0 <= j < i ==> (#[trigger] self@[j]).0.len() == width && self@[j].1.len()
                        == width,
            decreases width - i,
        {
            if self.0[i].0.len() != width || self.0[i].1.len() != width {
                proof {
                    assert(self@[i as int].0.len() != width || self@[i as int].1.len() != width);
                }
                return false;
            }
            i += 1;
        }
        true
    }

    /// Reads a key from its bytes. Bytes that bincode cannot read are an
    /// error, and so are bytes that hold another number of pairs, or byte
    /// strings of another length, than a key has.
    pub fn from(v: &[u8]) -> (key: Result<Key<H>, VerifyError>)
        ensures
            match key {
                Ok(k) => pairs_parse(v@) == Some(k@) && well_sized::<H>(k@),
                Err(VerifyError::BinCode(_)) => pairs_parse(v@) is None,
                Err(VerifyError::Key) => pairs_parse(v@) is Some && !well_sized::<H>(
                    pairs_parse(v@).unwrap(),
                ),
                Err(VerifyError::Tree) => false,
            },
    {
        match read_pairs(v) {
            Ok(pairs) => {
                let key = Key(pairs, PhantomData);
                if key.is_well_sized() {
                    Ok(key)
                } else {
                    Err(VerifyError::Key)
                }
            },
            Err(e) => Err(VerifyError::BinCode(e)),
        }
    }

    /// Derives the public key: every seed hashed as often as a digest has
    /// bits.
    pub fn public(&self) -> (public: Key<H>)
        ensures
            public@ == public_of::<H>(self@),
    {
        let length = H::bits();
        let mut pairs: Vec<(Vec<u8>, Vec<u8>)> = Vec::new();
        let mut i: usize = 0;
        while i < self.0.len()
            invariant
                i <= self.0@.len(),
                length == chain_length::<H>(),
                pairs@.len() == i,
                forall|j: int| 0 <= j < i ==> sights(pairs@)[j] == #[trigger] public_of::<H>(self@)[j],
            decreases self.0@.len() - i,
        {
            let x = chain::<H>(self.0[i].0.as_slice(), length);
            let y = chain::<H>(self.0[i].1.as_slice(), length);
            pairs.push((x, y));
            i += 1;
        }
        let public = Key(pairs, PhantomData);
        proof {
            assert(public@ =~= public_of::<H>(self@));
        }
        public
    }

    /// What the key reveals for `data`, pair by pair.
    pub fn sign_pairs(&self, data: &[u8]) -> (revealed: Vec<(Vec<u8>, Vec<u8>)>)
        ensures
            sights(revealed@) == signature_of::<H>(self@, data@),
    {
        let length = H::bits();
        let digest = H::hash(data);
        let count = if digest.len() < self.0.len() {
            digest.len()
        } else {
            self.0.len()
        };
        proof {
            H::width_in_range();
        }
        let mut pairs: Vec<(Vec<u8>, Vec<u8>)> = Vec::new();
        let mut i: usize = 0;
        while i < count
            invariant
                i <= count,
                count <= digest@.len(),
                count <= self.0@.len(),
                count == signature_of::<H>(self@, data@).len(),
                digest@ == H::digest(data@),
                length == chain_length::<H>(),
                length >= 256,
                pairs@.len() == i,
                forall|j: int|
                    0 <= j < i ==> sights(pairs@)[j] == #[trigger] signature_of::<H>(
                        self@,
                        data@,
                    )[j],
            decreases count - i,
        {
            let up: usize = digest[i] as usize + 1;
            let a = chain::<H>(self.0[i].0.as_slice(), up);
            let b = chain::<H>(self.0[i].1.as_slice(), length - up);
            pairs.push((a, b));
            i += 1;
        }
        proof {
            assert(sights(pairs@) =~= signature_of::<H>(self@, data@));
        }
        pairs
    }

    /// Signs `data`: what the key reveals for it, in bytes.
    pub fn sign(&self, data: &[u8]) -> (out: Result<Vec<u8>, SerializeError>)
        ensures
            out is Ok,
            out->Ok_0@ == pairs_wire(signature_of::<H>(self@, data@)),
    {
        let revealed = self.sign_pairs(data);
        write_pairs(&revealed)
    }

    /// Whether this public key accepts the revealed pairs for `data`. It
    /// accepts nothing unless the key and what was revealed both have a
    /// pair for each byte of a digest.
    pub fn check(&self, revealed: &Vec<(Vec<u8>, Vec<u8>)>, data: &[u8]) -> (valid: bool)
        ensures
            valid == accepts::<H>(self@, sights(revealed@), data@),
    {
        let width = H::bytes();
        if self.0.len() != width || revealed.len() != width {
            return false;
        }
        let length = H::bits();
        let digest = H::hash(data);
        proof {
            H::width_in_range();
            H::digest_has_width(data@);
        }
        let mut valid = true;
        let mut i: usize = 0;
        while i < width
            invariant
                i <= width == H::width(),
                digest@.len() == width,
                self.0@.len() == width,
                revealed@.len() == width,
                digest@ == H::digest(data@),
                length == chain_length::<H>(),
                length >= 256,
                valid == forall|j: int|
                    0 <= j < i ==> #[trigger] reaches::<H>(
                        self@,
                        sights(revealed@),
                        digest@,
                        j,
                    ),
            decreases width - i,
        {
            let up: usize = digest[i] as usize + 1;
            let a = chain::<H>(revealed[i].0.as_slice(), length - up);
            let b = chain::<H>(revealed[i].1.as_slice(), up);
            let first = eq(a.as_slice(), self.0[i].0.as_slice());
            let second = eq(b.as_slice(), self.0[i].1.as_slice());
            proof {
                assert((first && second) == reaches::<H>(
                    self@,
                    sights(revealed@),
                    digest@,
                    i as int,
                ));
            }
            valid = valid && first && second;
            i += 1;
        }
        valid
    }

    /// Reads a signature from its bytes and checks it against `data`.
    pub fn verify(&self, sign: &[u8], data: &[u8]) -> (out: Result<bool, DeserializeError>)
        ensures
            match out {
                Ok(valid) => pairs_parse(sign@) is Some && valid == accepts::<H>(
                    self@,
                    pairs_parse(sign@).unwrap(),
                    data@,
                ),
                Err(_) => pairs_parse(sign@) is None,
            },
    {
        match read_pairs(sign) {
            Ok(revealed) => Ok(self.check(&revealed, data)),
            Err(e) => Err(e),
        }
    }

    /// The bytes of the key.
    pub fn export(&self) -> (out: Result<Vec<u8>, SerializeError>)
        ensures
            out is Ok,
            out->Ok_0@ == pairs_wire(self@),
    {
        write_pairs(&self.0)
    }
}

} // verus!
