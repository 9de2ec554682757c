//! The hash capability, hash chains, the random source and constant-time
//! comparison of digests.

use crypto::digest::Digest;
use crypto::sha2::Sha256;
use rand::{OsRng, Rng};
use vstd::prelude::*;

verus! {

/// A hash function of fixed output length.
///
/// `digest` is the function itself, `width` its output length in bytes. The
/// one-time signature reveals chain positions `v + 1` and `8 * width - (v + 1)`
/// for every byte value `v`, so a hash must be at least 32 bytes wide.
pub trait Hash {
    /// The digest of `data`.
    spec fn digest(data: Seq<u8>) -> Seq<u8>;

    /// The length of every digest, in bytes.
    spec fn width() -> nat;

    /// Every digest is `width` bytes long.
    proof fn digest_has_width(data: Seq<u8>)
        ensures
            Self::digest(data).len() == Self::width(),
    ;

    /// A digest has room for a chain position per byte value, and its bits
    /// can be counted in a machine word.
    proof fn width_in_range()
        ensures
            32 <= Self::width(),
            8 * Self::width() <= usize::MAX,
    ;

    /// Computes the digest of `data`.
    fn hash(data: &[u8]) -> (out: Vec<u8>)
        ensures
            out@ == Self::digest(data@),
    ;

    /// The length of a digest in bits: the length of every hash chain.
    fn bits() -> (n: usize)
        ensures
            n == 8 * Self::width(),
    ;

    /// The length of a digest in bytes.
    fn bytes() -> (n: usize)
        ensures
            n == Self::width(),
    ;
}

/// What SHA-256 of rust-crypto returns for a message.
pub uninterp spec fn sha256(data: Seq<u8>) -> Seq<u8>;

/// rust-crypto's `Sha256`, which stands for the hash function and is never
/// looked into.
#[verifier::external_type_specification]
#[verifier::external_body]
pub struct ExSha256(Sha256);

/// Runs `Sha256::new`, `input` and `result` of rust-crypto on `data`, into a
/// buffer of `output_bytes()` bytes. The result is a function of the message
/// alone, and `result` fills exactly the 32 bytes of the buffer.
#[verifier::external_body]
fn sha256_of(data: &[u8]) -> (out: Vec<u8>)
    ensures
        out@ == sha256(data@),
        out@.len() == 32,
{
    let mut hasher = Sha256::new();
    let mut output = vec![0; Sha256::new().output_bytes()];
    hasher.input(data);
    hasher.result(&mut output);
    output
}

/// `Digest::output_bits` of rust-crypto's `Sha256`, which is the constant 256.
#[verifier::external_body]
fn sha256_bits() -> (n: usize)
    ensures
        n == 256,
{
    Sha256::new().output_bits()
}

/// `Digest::output_bytes` of rust-crypto's `Sha256`: its 256 bits in bytes.
#[verifier::external_body]
fn sha256_bytes() -> (n: usize)
    ensures
        n == 32,
{
    Sha256::new().output_bytes()
}

impl Hash for Sha256 {
    /// SHA-256, read as 32 zero bytes wherever the named result were not 32
    /// bytes long (it always is, for what the hasher returns).
    open spec fn digest(data: Seq<u8>) -> Seq<u8> {
        if sha256(data).len() == 32 {
            sha256(data)
        } else {
            Seq::new(32, |i: int| 0u8)
        }
    }

    open spec fn width() -> nat {
        32
    }

    proof fn digest_has_width(data: Seq<u8>) {
    }

    proof fn width_in_range() {
    }

    fn hash(data: &[u8]) -> (out: Vec<u8>) {
        sha256_of(data)
    }

    fn bits() -> (n: usize) {
        sha256_bits()
    }

    fn bytes() -> (n: usize) {
        sha256_bytes()
    }
}

/// `seed` hashed `times` times in a row.
pub open spec fn chained<H: Hash>(seed: Seq<u8>, times: nat) -> Seq<u8>
    decreases times,
{
    if times == 0 {
        seed
    } else {
        H::digest(chained::<H>(seed, (times - 1) as nat))
    }
}

/// A chain of no steps is its seed.
pub proof fn lemma_chain_zero<H: Hash>(seed: Seq<u8>)
    ensures
        chained::<H>(seed, 0) == seed,
{
}

/// Walking `a` steps and then `b` more is walking `a + b` steps.
pub proof fn lemma_chain_add<H: Hash>(seed: Seq<u8>, a: nat, b: nat)
    ensures
        chained::<H>(seed, a + b) == chained::<H>(chained::<H>(seed, a), b),
    decreases b,
{
    if b > 0 {
        lemma_chain_add::<H>(seed, a, (b - 1) as nat);
        assert(a + b - 1 == a + (b - 1));
    }
}

/// Hashes `seed` `times` times in a row.
pub fn chain<H: Hash>(seed: &[u8], times: usize) -> (out: Vec<u8>)
    ensures
        out@ == chained::<H>(seed@, times as nat),
{
    let mut out: Vec<u8> = Vec::new();
    out.extend_from_slice(seed);
    let mut done: usize = 0;
    while done < times
        invariant
            done <= times,
            out@ == chained::<H>(seed@, done as nat),
        decreases times - done,
    {
        out = H::hash(out.as_slice());
        done += 1;
    }
    out
}

/// Compares two byte strings without stopping at the first difference.
pub fn eq(a: &[u8], b: &[u8]) -> (same: bool)
    ensures
        same == (a@ == b@),
{
    if a.len() != b.len() {
        return false;
    }
    let mut d: u8 = 0;
    let mut i: usize = 0;
    proof {
        assert(a@.take(0) =~= b@.take(0));
    }
    while i < a.len()
        invariant
            i <= a.len(),
            a.len() == b.len(),
            (d == 0) == (a@.take(i as int) == b@.take(i as int)),
        decreases a.len() - i,
    {
        let x: u8 = a[i];
        let y: u8 = b[i];
        proof {
            assert(((d | (x ^ y)) == 0) == (d == 0 && x == y)) by (bit_vector);
            assert(a@.take(i + 1) == a@.take(i as int).push(x));
            assert(b@.take(i + 1) == b@.take(i as int).push(y));
            if a@.take(i + 1) == b@.take(i + 1) {
                assert(a@.take(i as int) == a@.take(i + 1).drop_last());
                assert(b@.take(i as int) == b@.take(i + 1).drop_last());
                assert(x == a@.take(i + 1).last());
            }
        }
        d = d | (x ^ y);
        i += 1;
    }
    proof {
        assert(a@.take(a.len() as int) == a@);
        assert(b@.take(b.len() as int) == b@);
    }
    d == 0
}

/// A source of random values, handed to whatever draws keys or picks
/// among them. Of what it returns only the size is promised: the contracts
/// of the library hold of every value drawn.
pub trait RandomSource {
    /// Draws `len` bytes.
    fn random_bytes(&mut self, len: usize) -> (out: Vec<u8>)
        ensures
            out@.len() == len,
    ;

    /// Draws an index below `bound`.
    fn random_index(&mut self, bound: usize) -> (index: usize)
        requires
            0 < bound,
        ensures
            index < bound,
    ;
}

/// rand's generator of the operating system. The caller makes it with
/// `OsRng::new`, and deals with its absence there.
#[verifier::external_type_specification]
#[verifier::external_body]
pub struct ExOsRng(OsRng);

/// `Rng::gen_iter` of rand on a generator that the caller made, taken `len`
/// times: as many bytes as were asked for, whichever. No argument makes it
/// fail; rand stops the process where the operating system, against what
/// it said when the generator was made, gives no bytes.
#[verifier::external_body]
fn os_bytes(rng: &mut OsRng, len: usize) -> (out: Vec<u8>)
    ensures
        out@.len() == len,
{
    rng.gen_iter().take(len).collect::<Vec<u8>>()
}

/// `sample` of rand, for one value of the range `0..bound`, on a generator
/// that the caller made: with a range that is not empty it holds one value
/// of the range, whichever. It draws as `os_bytes` does.
#[verifier::external_body]
fn os_index(rng: &mut OsRng, bound: usize) -> (index: usize)
    requires
        0 < bound,
    ensures
        index < bound,
{
    rand::sample(rng, 0..bound, 1).remove(0)
}

impl RandomSource for OsRng {
    fn random_bytes(&mut self, len: usize) -> (out: Vec<u8>) {
        os_bytes(self, len)
    }

    fn random_index(&mut self, bound: usize) -> (index: usize) {
        os_index(self, bound)
    }
}

} // verus!
