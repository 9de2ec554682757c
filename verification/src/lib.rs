//! Hash-based signatures: a Winternitz-style one-time signature over hash
//! chains, and a Merkle tree that binds a pool of one-time keys to one root.

pub mod codec;
pub mod lamport;
pub mod merkle;
pub mod utils;
pub mod wire;

pub use crate::lamport::Key;
pub use crate::merkle::{Tree, TreeBin};

use crate::codec::{
    blob_parse, blob_wire, pairs_parse, pairs_wire, read_blob, write_blob, written, Pairs,
};
use crate::lamport::{accepts, public_of, signature_of, well_sized};
use crate::merkle::{
    balanced, bottom, is_full, is_pow2, leaves, lemma_two_to, path_to, proper, root, shapes, two_to,
    Shape,
};
use crate::utils::eq;
use crate::wire::{fits, parse, wire};
use bincode::serde::{DeserializeError, SerializeError};
use std::marker::PhantomData;
use vstd::prelude::*;

verus! {

/// Why signing failed.
#[derive(Debug)]
pub enum SignError {
    /// An error of bincode's writing, for callers that write with it.
    BinCode(SerializeError),
    /// The pool has no unused key left.
    Null,
}

/// Why a signature could not be read.
#[derive(Debug)]
pub enum VerifyError {
    /// bincode could not read the blob, the key or the signature.
    BinCode(DeserializeError),
    /// The bytes of the authentication path do not begin with a tree.
    Tree,
    /// The bytes of the key hold another number of pairs, or byte strings
    /// of another length, than a key has.
    Key,
}

impl From<SerializeError> for SignError {
    fn from(err: SerializeError) -> (out: SignError) {
        SignError::BinCode(err)
    }
}

impl vstd::std_specs::convert::FromSpecImpl<SerializeError> for SignError {
    open spec fn obeys_from_spec() -> bool {
        true
    }

    open spec fn from_spec(err: SerializeError) -> SignError {
        SignError::BinCode(err)
    }
}

impl From<DeserializeError> for VerifyError {
    fn from(err: DeserializeError) -> (out: VerifyError) {
        VerifyError::BinCode(err)
    }
}

impl vstd::std_specs::convert::FromSpecImpl<DeserializeError> for VerifyError {
    open spec fn obeys_from_spec() -> bool {
        true
    }

    open spec fn from_spec(err: DeserializeError) -> VerifyError {
        VerifyError::BinCode(err)
    }
}

/// Whether `key` is the private key behind the leaf at place `index`: the
/// leaf holds the digest of the bytes of the key's public key.
pub open spec fn key_of_leaf<H: crate::utils::Hash>(tree: Shape, index: nat, key: Pairs) -> bool {
    &&& index < leaves(tree).len()
    &&& leaves(tree)[index as int] == H::digest(pairs_wire(public_of::<H>(key)))
}

/// Whether an authentication path and the bytes of a one-time public key
/// belong under `top`: the path is a proper tree, it hashes to `top`, and
/// its bottom pair holds the digest of the key's bytes.
pub open spec fn admits<H: crate::utils::Hash>(top: Seq<u8>, path: Shape, pk: Seq<u8>) -> bool {
    proper::<H>(path) && root::<H>(path) == top && bottom(path).contains(H::digest(pk))
}

/// Whether the path that goes out with the key behind the leaf at place
/// `index` is read back from its bytes and admitted, with the bytes of the
/// key's public key, under the root of `tree`.
pub open spec fn issue_admitted<H: crate::utils::Hash>(tree: Shape, index: nat, key: Pairs) -> bool {
    &&& parse(path_bytes::<H>(tree, index)) == Some(
        (path_to::<H>(tree, index), Seq::<u8>::empty()),
    )
    &&& admits::<H>(
        root::<H>(tree),
        path_to::<H>(tree, index),
        pairs_wire(public_of::<H>(key)),
    )
}

/// The leaves that stand for a list of keys: each holds the digest of the
/// bytes of its key's public key.
pub open spec fn leaf_row<H: crate::utils::Hash>(keys: Seq<(nat, Pairs)>) -> Seq<Shape> {
    Seq::new(
        keys.len(),
        |i: int| Shape::Leaf(H::digest(pairs_wire(public_of::<H>(keys[i].1)))),
    )
}

/// The bytes of the authentication path of the leaf at place `index`.
pub open spec fn path_bytes<H: crate::utils::Hash>(tree: Shape, index: nat) -> Seq<u8> {
    wire(path_to::<H>(tree, index))
}

/// The path that the pool issues with a key passes the verifier's check of
/// path and public key, under the pool's root.
pub proof fn lemma_issued_admitted<H: crate::utils::Hash>(tree: Shape, index: nat, key: Pairs)
    requires
        proper::<H>(tree),
        key_of_leaf::<H>(tree, index, key),
        fits(path_to::<H>(tree, index)),
    ensures
        issue_admitted::<H>(tree, index, key),
{
    let path = path_to::<H>(tree, index);
    crate::wire::lemma_round_trip::<H>(path);
    crate::merkle::lemma_path_prunes::<H>(tree, index);
    crate::merkle::lemma_path_proper::<H>(tree, index);
    crate::merkle::lemma_pruning_sound::<H>(tree, path, leaves(tree)[index as int]);
}

/// The signature blob of `data` under the key behind the leaf at place
/// `index`: the authentication path of that leaf, the bytes of the public
/// key and the bytes of the one-time signature, in this order.
pub open spec fn blob_of<H: crate::utils::Hash>(
    tree: Shape,
    index: nat,
    key: Pairs,
    data: Seq<u8>,
) -> Seq<u8> {
    blob_wire(
        path_bytes::<H>(tree, index),
        pairs_wire(public_of::<H>(key)),
        pairs_wire(signature_of::<H>(key, data)),
    )
}

/// Whether the three parts of a blob are short enough for their lengths
/// to be written: every byte vector is.
pub open spec fn blob_fits<H: crate::utils::Hash>(
    tree: Shape,
    index: nat,
    key: Pairs,
    data: Seq<u8>,
) -> bool {
    &&& path_bytes::<H>(tree, index).len() <= u64::MAX
    &&& pairs_wire(public_of::<H>(key)).len() <= u64::MAX
    &&& pairs_wire(signature_of::<H>(key, data)).len() <= u64::MAX
}

/// What the pool signs, the verifier of the pool's root finds valid: the
/// blob is read back part by part, the path and the key belong under the
/// root, and the key accepts what it signed.
pub proof fn lemma_signed_blob_valid<H: crate::utils::Hash>(
    tree: Shape,
    index: nat,
    key: Pairs,
    data: Seq<u8>,
)
    requires
        proper::<H>(tree),
        key_of_leaf::<H>(tree, index, key),
        well_sized::<H>(key),
        blob_fits::<H>(tree, index, key, data),
    ensures
        verdict::<H>(root::<H>(tree), blob_of::<H>(tree, index, key, data), data) == Some(true),
{
    crate::merkle::lemma_path_proper::<H>(tree, index);
    crate::wire::lemma_proper_fits::<H>(path_to::<H>(tree, index));
    lemma_issued_admitted::<H>(tree, index, key);
    crate::lamport::lemma_public_sized::<H>(key);
    crate::lamport::lemma_sized_fits::<H>(public_of::<H>(key));
    crate::codec::lemma_pairs_back(public_of::<H>(key));
    crate::lamport::lemma_signed_bytes_accepted::<H>(key, data);
    crate::codec::lemma_blob_back(
        path_bytes::<H>(tree, index),
        pairs_wire(public_of::<H>(key)),
        pairs_wire(signature_of::<H>(key, data)),
    );
}

/// Whether bytes read as a key: bincode reads a row of pairs from them, and
/// the row has the size of a key.
pub open spec fn reads_as_key<H: crate::utils::Hash>(otk: Seq<u8>) -> bool {
    pairs_parse(otk) is Some && well_sized::<H>(pairs_parse(otk).unwrap())
}

/// The verdict on the three parts of a signature blob under the root `top`:
/// `None` where a part cannot be read. A path or a key that does not belong
/// under `top` is refused before the signature is read.
pub open spec fn judged<H: crate::utils::Hash>(
    top: Seq<u8>,
    tree: Seq<u8>,
    otk: Seq<u8>,
    sign: Seq<u8>,
    data: Seq<u8>,
) -> Option<bool> {
    if !reads_as_key::<H>(otk) || parse(tree) is None {
        None
    } else if !admits::<H>(top, parse(tree).unwrap().0, otk) {
        Some(false)
    } else if pairs_parse(sign) is None {
        None
    } else {
        Some(accepts::<H>(pairs_parse(otk).unwrap(), pairs_parse(sign).unwrap(), data))
    }
}

/// The verdict on a signature blob under the root `top`: `None` where the
/// blob or one of its parts cannot be read.
pub open spec fn verdict<H: crate::utils::Hash>(top: Seq<u8>, blob: Seq<u8>, data: Seq<u8>) -> Option<
    bool,
> {
    match blob_parse(blob) {
        Some(parts) => judged::<H>(top, parts.0, parts.1, parts.2, data),
        None => None,
    }
}

/// Whether `e` names the part that cannot be read, where `judged` gives
/// `None`. The key comes first, then the path, then the signature.
pub open spec fn names_fault<H: crate::utils::Hash>(
    e: VerifyError,
    tree: Seq<u8>,
    otk: Seq<u8>,
    sign: Seq<u8>,
) -> bool {
    if pairs_parse(otk) is None {
        e is BinCode
    } else if !reads_as_key::<H>(otk) {
        e is Key
    } else if parse(tree) is None {
        e is Tree
    } else {
        e is BinCode && pairs_parse(sign) is None
    }
}

/// Whether a row of digests holds `digest`.
fn holds(row: &Vec<Vec<u8>>, digest: &[u8]) -> (found: bool)
    ensures
        found == crate::merkle::strings(row@).contains(digest@),
{
    let mut found = false;
    let mut i: usize = 0;
    while i < row.len()
        invariant
            i <= row@.len(),
            found == exists|j: int| 0 <= j < i && #[trigger] crate::merkle::strings(row@)[j] == digest@,
        decreases row@.len() - i,
    {
        let same = eq(row[i].as_slice(), digest);
        proof {
            assert(crate::merkle::strings(row@)[i as int] == row@[i as int]@);
        }
        found = found || same;
        i += 1;
    }
    found
}

/// Whether no leaf is listed twice among the unused keys.
pub open spec fn listed_once(unused: Seq<(nat, Pairs)>) -> bool {
    forall|i: int, j: int|
        0 <= i < j < unused.len() ==> (#[trigger] unused[i]).0 != (#[trigger] unused[j]).0
}

/// A key that was taken out is listed no more: no leaf is issued twice, and
/// the list is shorter by one.
pub proof fn lemma_issued_once(unused: Seq<(nat, Pairs)>, at: int)
    requires
        listed_once(unused),
        0 <= at < unused.len(),
    ensures
        unused.remove(at).len() == unused.len() - 1,
        listed_once(unused.remove(at)),
        forall|i: int|
            0 <= i < unused.remove(at).len() ==> (#[trigger] unused.remove(at)[i]).0
                != unused[at].0,
{
    let rest = unused.remove(at);
    assert forall|i: int| 0 <= i < rest.len() implies (#[trigger] rest[i]).0 != unused[at].0 by {
        if i < at {
            assert(rest[i] == unused[i]);
        } else {
            assert(rest[i] == unused[i + 1]);
        }
    }
    assert forall|i: int, j: int| 0 <= i < j < rest.len() implies (#[trigger] rest[i]).0 != (
    #[trigger] rest[j]).0 by {
        let ii = if i < at {
            i
        } else {
            i + 1
        };
        let jj = if j < at {
            j
        } else {
            j + 1
        };
        assert(rest[i] == unused[ii]);
        assert(rest[j] == unused[jj]);
    }
}

/// Whether `tree` is proper, every listed key has the size of a key and
/// stands behind its leaf in `tree`, and no leaf is listed twice.
pub open spec fn pool_ok<H: crate::utils::Hash>(tree: Shape, unused: Seq<(nat, Pairs)>) -> bool {
    &&& proper::<H>(tree)
    &&& forall|i: int|
        0 <= i < unused.len() ==> key_of_leaf::<H>(tree, (#[trigger] unused[i]).0, unused[i].1)
            && well_sized::<H>(unused[i].1)
    &&& listed_once(unused)
}

/// The keys of a row, as mathematical values.
pub open spec fn key_views<H: crate::utils::Hash>(keys: Seq<Key<H>>) -> Seq<Pairs> {
    Seq::new(keys.len(), |i: int| keys[i]@)
}

/// A list of keys with the places of their leaves, as a mathematical value.
pub open spec fn entries<H: crate::utils::Hash>(live: Seq<(usize, Key<H>)>) -> Seq<(nat, Pairs)> {
    Seq::new(live.len(), |i: int| (live[i].0 as nat, live[i].1@))
}

/// Whether the unused keys have public keys that differ from one another.
pub open spec fn keys_differ<H: crate::utils::Hash>(unused: Seq<(nat, Pairs)>) -> bool {
    forall|i: int, j: int|
        0 <= i < j < unused.len() ==> public_of::<H>((#[trigger] unused[i]).1) != public_of::<H>(
            (#[trigger] unused[j]).1,
        )
}

/// Where the unused keys have public keys that differ, the public key that
/// goes out with a signature is that of no key that is left, and the keys
/// that are left still differ: no public key goes out twice.
pub proof fn lemma_public_key_once<H: crate::utils::Hash>(unused: Seq<(nat, Pairs)>, at: int)
    requires
        keys_differ::<H>(unused),
        0 <= at < unused.len(),
    ensures
        keys_differ::<H>(unused.remove(at)),
        forall|i: int|
            0 <= i < unused.remove(at).len() ==> public_of::<H>(
                (#[trigger] unused.remove(at)[i]).1,
            ) != public_of::<H>(unused[at].1),
{
    let rest = unused.remove(at);
    assert forall|i: int| 0 <= i < rest.len() implies public_of::<H>((#[trigger] rest[i]).1)
        != public_of::<H>(unused[at].1) by {
        if i < at {
            assert(rest[i] == unused[i]);
        } else {
            assert(rest[i] == unused[i + 1]);
        }
    }
    assert forall|i: int, j: int| 0 <= i < j < rest.len() implies public_of::<H>(
        (#[trigger] rest[i]).1,
    ) != public_of::<H>((#[trigger] rest[j]).1) by {
        let ii = if i < at {
            i
        } else {
            i + 1
        };
        let jj = if j < at {
            j
        } else {
            j + 1
        };
        assert(rest[i] == unused[ii]);
        assert(rest[j] == unused[jj]);
    }
}

/// A pool of one-time keys under one Merkle root. Every key signs once.
pub struct HashSign<H: crate::utils::Hash> {
    tree: Tree,
    live: Vec<(usize, Key<H>)>,
}

impl<H: crate::utils::Hash> HashSign<H> {
    /// The tree over the digests of the public keys.
    pub closed spec fn tree(&self) -> Shape {
        self.tree@
    }

    /// The keys that have not signed yet, each with the place of its leaf.
    pub closed spec fn unused(&self) -> Seq<(nat, Pairs)> {
        entries(self.live@)
    }

    /// What holds of every pool: the tree is proper, every unused key has
    /// the size of a key and stands behind its leaf, and no leaf is listed
    /// twice.
    #[verifier::type_invariant]
    pub open spec fn wf(&self) -> bool {
        pool_ok::<H>(self.tree(), self.unused())
    }

    /// Builds the pool of the given keys: the tree over the digests of their
    /// public keys, in the order of the row, with every key unused.
    pub fn from_keys(keys: Vec<Key<H>>) -> (pool: HashSign<H>)
        requires
            is_pow2(keys@.len()),
            forall|i: int| 0 <= i < keys@.len() ==> well_sized::<H>((#[trigger] keys@[i])@),
        ensures
            pool.tree() == balanced(leaf_row::<H>(pool.unused())),
            leaves(pool.tree()).len() == keys@.len(),
            pool.unused().len() == keys@.len(),
            forall|i: int|
                0 <= i < keys@.len() ==> #[trigger] pool.unused()[i] == (i as nat, keys@[i]@),
    {
        let ghost given = key_views(keys@);
        let count = keys.len();
        let mut live: Vec<(usize, Key<H>)> = Vec::new();
        let mut leafs: Vec<Tree> = Vec::new();
        let mut i: usize = 0;
        while i < count
            invariant
                i <= count == keys@.len(),
                given == key_views(keys@),
                live@.len() == i,
                leafs@.len() == i,
                forall|j: int|
                    0 <= j < i ==> (#[trigger] live@[j]).0 == j && live@[j].1@ == given[j],
                forall|j: int|
                    0 <= j < i ==> (#[trigger] leafs@[j])@ == Shape::Leaf(
                        H::digest(pairs_wire(public_of::<H>(given[j]))),
                    ),
            decreases count - i,
        {
            let key = keys[i].clone();
            proof {
                assert(given[i as int] == keys@[i as int]@);
            }
            let bytes = written(key.public().export());
            leafs.push(Tree::Leaf(H::hash(bytes.as_slice())));
            live.push((i, key));
            i += 1;
        }
        let ghost row = shapes(leafs@);
        proof {
            assert forall|j: int| 0 <= j < row.len() implies proper::<H>(#[trigger] row[j]) by {
                assert(leafs@[j]@ == row[j]);
                H::digest_has_width(pairs_wire(public_of::<H>(given[j])));
            }
            crate::merkle::lemma_balanced_leaves(row);
            crate::merkle::lemma_balanced_proper::<H>(row);
        }
        let tree = Tree::build(leafs);
        proof {
            let unused = entries(live@);
            assert forall|j: int| 0 <= j < unused.len() implies key_of_leaf::<H>(
                tree@,
                (#[trigger] unused[j]).0,
                unused[j].1,
            ) && well_sized::<H>(unused[j].1) by {
                assert(live@[j].0 == j);
                assert(given[j] == keys@[j]@);
                assert(row[j] == Shape::Leaf(
                    H::digest(pairs_wire(public_of::<H>(given[j]))),
                ));
            }
            assert forall|j: int| 0 <= j < keys@.len() implies #[trigger] unused[j] == (
                j as nat,
                keys@[j]@,
            ) by {
                assert(live@[j].0 == j);
                assert(given[j] == keys@[j]@);
            }
            assert(row =~= leaf_row::<H>(unused));
            assert(pool_ok::<H>(tree@, unused));
        }
        HashSign { tree, live }
    }

    /// Draws `2^level` one-time keys from `rng` and builds their pool.
    pub fn new<R: crate::utils::RandomSource>(level: u32, rng: &mut R) -> (pool: HashSign<H>)
        requires
            two_to(level as nat) <= usize::MAX,
        ensures
            pool.tree() == balanced(leaf_row::<H>(pool.unused())),
            is_full(pool.tree(), level as nat),
            leaves(pool.tree()).len() == two_to(level as nat),
            pool.unused().len() == two_to(level as nat),
            forall|i: int|
                0 <= i < pool.unused().len() ==> (#[trigger] pool.unused()[i]).0 == i
                    && well_sized::<H>(pool.unused()[i].1),
    {
        let mut count: usize = 1;
        let mut k: u32 = 0;
        proof {
            lemma_two_to(level as nat);
        }
        while k < level
            invariant
                k <= level,
                count == two_to(k as nat),
                two_to(level as nat) <= usize::MAX,
                forall|j: nat| j <= level ==> #[trigger] two_to(j) <= two_to(level as nat),
            decreases level - k,
        {
            proof {
                assert(two_to((k + 1) as nat) <= two_to(level as nat));
            }
            count = count * 2;
            k += 1;
        }
        let mut keys: Vec<Key<H>> = Vec::new();
        let mut i: usize = 0;
        while i < count
            invariant
                i <= count,
                keys@.len() == i,
                forall|j: int| 0 <= j < i ==> well_sized::<H>((#[trigger] keys@[j])@),
            decreases count - i,
        {
            keys.push(Key::<H>::new(rng));
            i += 1;
        }
        let pool = HashSign::<H>::from_keys(keys);
        proof {
            crate::merkle::lemma_balanced_full(leaf_row::<H>(pool.unused()), level as nat);
        }
        pool
    }

    /// The root of the tree: the public identity of the pool.
    pub fn public_export(&self) -> (top: Vec<u8>)
        ensures
            top@ == root::<H>(self.tree()),
    {
        self.tree.hash::<H>()
    }

    /// How many keys have not signed yet.
    pub fn remaining(&self) -> (count: usize)
        ensures
            count == self.unused().len(),
    {
        self.live.len()
    }

    /// Takes the unused key at place `at` of the list out of the pool, and
    /// returns it with the bytes of the authentication path of its leaf.
    pub fn take(&mut self, at: usize) -> (issued: (Key<H>, Vec<u8>))
        requires
            at < old(self).unused().len(),
        ensures
            final(self).tree() == old(self).tree(),
            final(self).unused() == old(self).unused().remove(at as int),
            issued.0@ == old(self).unused()[at as int].1,
            issued.1@ == path_bytes::<H>(old(self).tree(), old(self).unused()[at as int].0),
            well_sized::<H>(issued.0@),
            issue_admitted::<H>(
                old(self).tree(),
                old(self).unused()[at as int].0,
                old(self).unused()[at as int].1,
            ),
    {
        proof {
            use_type_invariant(&*self);
        }
        let ghost before = self.unused();
        let mut live: Vec<(usize, Key<H>)> = Vec::new();
        proof {
            assert(pool_ok::<H>(self.tree@, entries(live@)));
        }
        std::mem::swap(&mut live, &mut self.live);
        let (index, key) = live.remove(at);
        proof {
            let rest = entries(live@);
            assert(rest =~= before.remove(at as int));
            assert(before[at as int] == (index as nat, key@));
            assert(key_of_leaf::<H>(self.tree(), before[at as int].0, before[at as int].1));
            assert forall|i: int| 0 <= i < rest.len() implies key_of_leaf::<H>(
                self.tree(),
                (#[trigger] rest[i]).0,
                rest[i].1,
            ) && well_sized::<H>(rest[i].1) by {
                if i < at {
                    assert(rest[i] == before[i]);
                } else {
                    assert(rest[i] == before[i + 1]);
                }
            }
            lemma_issued_once(before, at as int);
            assert(pool_ok::<H>(self.tree@, rest));
        }
        self.live = live;
        match self.tree.select::<H>(index) {
            Ok((path, _)) => {
                let bin = path.to_bin();
                let bytes = bin.encode();
                proof {
                    crate::wire::lemma_bin_fits(bin);
                    lemma_issued_admitted::<H>(self.tree(), index as nat, key@);
                }
                (key, bytes)
            },
            Err(_) => {
                proof {
                    assert(false);
                }
                (key, Vec::new())
            },
        }
    }

    /// Takes one unused key, whichever `rng` picks, out of the pool, with the
    /// bytes of its authentication path. Fails with `Null` if and only if
    /// no key is left.
    pub fn choose_sign<R: crate::utils::RandomSource>(&mut self, rng: &mut R) -> (out: Result<
        (Key<H>, Vec<u8>),
        SignError,
    >)
        ensures
            final(self).tree() == old(self).tree(),
            match out {
                Ok((key, path)) => exists|at: int|
                    {
                        &&& 0 <= at < old(self).unused().len()
                        &&& final(self).unused() == #[trigger] old(self).unused().remove(at)
                        &&& key@ == old(self).unused()[at].1
                        &&& path@ == path_bytes::<H>(old(self).tree(), old(self).unused()[at].0)
                        &&& well_sized::<H>(key@)
                        &&& issue_admitted::<H>(
                            old(self).tree(),
                            old(self).unused()[at].0,
                            old(self).unused()[at].1,
                        )
                    },
                Err(e) => e is Null && old(self).unused().len() == 0 && final(self).unused() == old(
                    self,
                ).unused(),
            },
    {
        if self.live.len() == 0 {
            return Err(SignError::Null);
        }
        let at = rng.random_index(self.live.len());
        let issued = self.take(at);
        proof {
            assert(self.unused() == old(self).unused().remove(at as int));
        }
        Ok(issued)
    }

    /// Signs `data` with the unused key at place `at` of the list, and takes
    /// that key out of the pool. The verifier of the pool's root finds the
    /// blob valid for `data`.
    pub fn sign_at(&mut self, at: usize, data: &[u8]) -> (blob: Vec<u8>)
        requires
            at < old(self).unused().len(),
        ensures
            final(self).tree() == old(self).tree(),
            final(self).unused() == old(self).unused().remove(at as int),
            blob@ == blob_of::<H>(
                old(self).tree(),
                old(self).unused()[at as int].0,
                old(self).unused()[at as int].1,
                data@,
            ),
            issue_admitted::<H>(
                old(self).tree(),
                old(self).unused()[at as int].0,
                old(self).unused()[at as int].1,
            ),
            verdict::<H>(root::<H>(old(self).tree()), blob@, data@) == Some(true),
    {
        proof {
            use_type_invariant(&*self);
        }
        let ghost index = self.unused()[at as int].0;
        let (otk, tree) = self.take(at);
        let sign = written(otk.sign(data));
        let otpk = written(otk.public().export());
        proof {
            assert(tree@.len() == tree.len());
            assert(sign@.len() == sign.len());
            assert(otpk@.len() == otpk.len());
            assert(blob_fits::<H>(old(self).tree(), index, otk@, data@));
            lemma_signed_blob_valid::<H>(old(self).tree(), index, otk@, data@);
        }
        written(write_blob(tree, otpk, sign))
    }

    /// Signs `data` with one unused key, whichever `rng` picks. Fails, with
    /// `Null`, if and only if no key is left; every other call uses up
    /// exactly one key and gives a blob that the verifier of the pool's
    /// root finds valid for `data`.
    pub fn sign<R: crate::utils::RandomSource>(&mut self, data: &[u8], rng: &mut R) -> (out: Result<
        Vec<u8>,
        SignError,
    >)
        ensures
            final(self).tree() == old(self).tree(),
            out is Ok <==> old(self).unused().len() > 0,
            match out {
                Ok(blob) => {
                    &&& exists|at: int|
                        {
                            &&& 0 <= at < old(self).unused().len()
                            &&& final(self).unused() == #[trigger] old(self).unused().remove(at)
                            &&& blob@ == blob_of::<H>(
                                old(self).tree(),
                                old(self).unused()[at].0,
                                old(self).unused()[at].1,
                                data@,
                            )
                            &&& issue_admitted::<H>(
                                old(self).tree(),
                                old(self).unused()[at].0,
                                old(self).unused()[at].1,
                            )
                        }
                    &&& verdict::<H>(root::<H>(old(self).tree()), blob@, data@) == Some(true)
                },
                Err(e) => e is Null && final(self).unused() == old(self).unused(),
            },
    {
        if self.live.len() == 0 {
            return Err(SignError::Null);
        }
        let at = rng.random_index(self.live.len());
        let blob = self.sign_at(at, data);
        proof {
            assert(self.unused() == old(self).unused().remove(at as int));
        }
        Ok(blob)
    }
}

impl<H: crate::utils::Hash> Clone for HashSign<H> {
    /// A copy of the pool, with the same keys unused.
    fn clone(&self) -> (copy: HashSign<H>)
        ensures
            copy.tree() == self.tree(),
            copy.unused() == self.unused(),
    {
        let mut live: Vec<(usize, Key<H>)> = Vec::new();
        let mut i: usize = 0;
        while i < self.live.len()
            invariant
                i <= self.live@.len(),
                live@.len() == i,
                forall|j: int|
                    0 <= j < i ==> (#[trigger] live@[j]).0 == self.live@[j].0 && live@[j].1@
                        == self.live@[j].1@,
            decreases self.live@.len() - i,
        {
            live.push((self.live[i].0, self.live[i].1.clone()));
            i += 1;
        }
        let tree = self.tree.duplicate();
        proof {
            use_type_invariant(self);
            assert(entries(live@) =~= self.unused());
        }
        HashSign { tree, live }
    }
}

impl<H: crate::utils::Hash> Clone for HashVerify<H> {
    fn clone(&self) -> (copy: HashVerify<H>)
        ensures
            copy.top() == self.top(),
    {
        HashVerify::new(self.hash.as_slice())
    }
}

/// The verifier: the root of a pool, and nothing private.
pub struct HashVerify<H: crate::utils::Hash> {
    hash: Vec<u8>,
    marker: PhantomData<H>,
}

impl<H: crate::utils::Hash> HashVerify<H> {
    /// The root that signatures are held against.
    pub closed spec fn top(&self) -> Seq<u8> {
        self.hash@
    }

    pub fn new(hash: &[u8]) -> (verifier: HashVerify<H>)
        ensures
            verifier.top() == hash@,
    {
        let mut top: Vec<u8> = Vec::new();
        top.extend_from_slice(hash);
        HashVerify { hash: top, marker: PhantomData }
    }

    /// Whether the authentication path in `tree` and the public key bytes
    /// `pk` belong under the root. Bytes that hold no tree are an error; a
    /// tree that is not proper, and a path or a key that does not belong,
    /// is `false`.
    pub fn choose_verify(&self, tree: &[u8], pk: &[u8]) -> (out: Result<bool, VerifyError>)
        ensures
            match out {
                Ok(valid) => parse(tree@) is Some && valid == admits::<H>(
                    self.top(),
                    parse(tree@).unwrap().0,
                    pk@,
                ),
                Err(e) => e is Tree && parse(tree@) is None,
            },
    {
        let bin = match TreeBin::decode(tree) {
            Some(bin) => bin,
            None => {
                return Err(VerifyError::Tree);
            },
        };
        let path = bin.to_tree();
        let shaped = path.is_proper::<H>();
        let top = path.hash::<H>();
        let under = eq(self.hash.as_slice(), top.as_slice());
        let digest = H::hash(pk);
        let listed = match path.vals() {
            Some(vals) => holds(&vals, digest.as_slice()),
            None => false,
        };
        Ok(shaped && under && listed)
    }

    /// Judges the three parts of a signature blob against `data`.
    pub fn verify_parts(&self, tree: &[u8], otk: &[u8], sign: &[u8], data: &[u8]) -> (out: Result<
        bool,
        VerifyError,
    >)
        ensures
            match out {
                Ok(valid) => judged::<H>(self.top(), tree@, otk@, sign@, data@) == Some(valid),
                Err(e) => judged::<H>(self.top(), tree@, otk@, sign@, data@) is None && names_fault::<
                    H,
                >(e, tree@, otk@, sign@),
            },
    {
        let key = match Key::<H>::from(otk) {
            Ok(key) => key,
            Err(e) => {
                return Err(e);
            },
        };
        match self.choose_verify(tree, otk) {
            Ok(true) => {},
            Ok(false) => {
                return Ok(false);
            },
            Err(e) => {
                return Err(e);
            },
        }
        match key.verify(sign, data) {
            Ok(valid) => Ok(valid),
            Err(e) => Err(VerifyError::BinCode(e)),
        }
    }

    /// Reads a signature blob and judges it against `data`: `true` if and
    /// only if path and key belong under the root and the key accepts the
    /// one-time signature.
    pub fn verify(&self, signbin: &[u8], data: &[u8]) -> (out: Result<bool, VerifyError>)
        ensures
            match out {
                Ok(valid) => verdict::<H>(self.top(), signbin@, data@) == Some(valid),
                Err(e) => verdict::<H>(self.top(), signbin@, data@) is None && match blob_parse(
                    signbin@,
                ) {
                    Some(parts) => names_fault::<H>(e, parts.0, parts.1, parts.2),
                    None => e is BinCode,
                },
            },
    {
        match read_blob(signbin) {
            Ok(parts) => self.verify_parts(
                parts.0.as_slice(),
                parts.1.as_slice(),
                parts.2.as_slice(),
                data,
            ),
            Err(e) => Err(VerifyError::BinCode(e)),
        }
    }
}

} // verus!
