//! Fingerprints: an input is hashed, the first eight bytes of the digest
//! are read as a big-endian number, and that number is reduced modulo
//! `n * 2^p`.
//!
//! The hash algorithms come from outside crates. Each digest is a function
//! of the input alone and has a name here; nothing else is assumed of it.

use crate::golomb::power_of_two;
use byteorder::BigEndian;
use byteorder::ByteOrder;
use digest::Digest;
use md5::Md5;
use twox_hash::XxHash32;
use twox_hash::XxHash64;
use vstd::arithmetic::power2::pow2;
use vstd::prelude::*;

verus! {

/// The hash algorithm that a set takes its fingerprints from.
#[derive(Debug, Clone, Copy, PartialEq, Eq)]
pub enum HashAlgorithm {
    /// MD5, a digest of 16 bytes.
    Md5,
    /// 32-bit xxHash with seed zero, a digest of 4 bytes.
    XxHash32,
    /// 64-bit xxHash with seed zero, a digest of 8 bytes.
    XxHash64,
}

/// The MD5 digest of `input`.
pub uninterp spec fn md5_digest(input: Seq<u8>) -> Seq<u8>;

/// The 32-bit xxHash of `input` with seed zero, as big-endian bytes.
pub uninterp spec fn xxhash32_digest(input: Seq<u8>) -> Seq<u8>;

/// The 64-bit xxHash of `input` with seed zero, as big-endian bytes.
pub uninterp spec fn xxhash64_digest(input: Seq<u8>) -> Seq<u8>;

/// `Digest::digest` of `md5::Md5`: the digest is a function of the input.
#[verifier::external_body]
fn md5_bytes(input: &[u8]) -> (out: Vec<u8>)
    ensures
        out@ == md5_digest(input@),
{
    Md5::digest(input).to_vec()
}

/// `Digest::digest` of `twox_hash::XxHash32`: the digest is a function of
/// the input.
#[verifier::external_body]
fn xxhash32_bytes(input: &[u8]) -> (out: Vec<u8>)
    ensures
        out@ == xxhash32_digest(input@),
{
    XxHash32::digest(input).to_vec()
}

/// `Digest::digest` of `twox_hash::XxHash64`: the digest is a function of
/// the input.
#[verifier::external_body]
fn xxhash64_bytes(input: &[u8]) -> (out: Vec<u8>)
    ensures
        out@ == xxhash64_digest(input@),
{
    XxHash64::digest(input).to_vec()
}

/// `ByteOrder::read_u64` of `byteorder::BigEndian`: the first eight bytes
/// as a big-endian number. It panics on fewer than eight bytes.
#[verifier::external_body]
fn read_u64_be(buf: &[u8]) -> (word: u64)
    requires
        buf@.len() >= 8,
    ensures
        word == be_value(buf@.take(8)),
{
    BigEndian::read_u64(buf)
}

impl HashAlgorithm {
    /// The digest that the algorithm gives for `input`.
    pub open spec fn digest_spec(self, input: Seq<u8>) -> Seq<u8> {
        match self {
            HashAlgorithm::Md5 => md5_digest(input),
            HashAlgorithm::XxHash32 => xxhash32_digest(input),
            HashAlgorithm::XxHash64 => xxhash64_digest(input),
        }
    }

    /// Hashes `input` with the algorithm.
    pub fn digest(&self, input: &[u8]) -> (out: Vec<u8>)
        ensures
            out@ == self.digest_spec(input@),
    {
        match self {
            HashAlgorithm::Md5 => md5_bytes(input),
            HashAlgorithm::XxHash32 => xxhash32_bytes(input),
            HashAlgorithm::XxHash64 => xxhash64_bytes(input),
        }
    }
}

/// The number that a byte string is in base 256, first byte most
/// significant.
pub open spec fn be_value(bytes: Seq<u8>) -> nat
    decreases bytes.len(),
{
    if bytes.len() == 0 {
        0
    } else {
        256 * be_value(bytes.drop_last()) + bytes.last() as nat
    }
}

/// The 64-bit number that a digest stands for: its first eight bytes, or
/// all of a shorter one with zero bytes before it, read big-endian.
pub open spec fn digest_word(digest: Seq<u8>) -> nat {
    if digest.len() >= 8 {
        be_value(digest.take(8))
    } else {
        be_value(digest)
    }
}

/// The number of fingerprints of a set for `n` elements with exponent `p`.
pub open spec fn modulus(n: nat, p: nat) -> nat {
    n * pow2(p)
}

/// `n * 2^p` is positive and within 64 bits.
pub open spec fn modulus_fits(n: nat, p: nat) -> bool {
    n >= 1 && p <= 63 && modulus(n, p) <= u64::MAX
}

/// The fingerprint that a digest gives.
pub open spec fn digest_value_spec(n: nat, p: nat, digest: Seq<u8>) -> nat {
    digest_word(digest) % modulus(n, p)
}

/// The fingerprint of `input` under `hash`.
pub open spec fn fingerprint_spec(hash: HashAlgorithm, n: nat, p: nat, input: Seq<u8>) -> nat {
    digest_value_spec(n, p, hash.digest_spec(input))
}

/// Zero bytes in front of a byte string do not change its number.
pub proof fn lemma_be_value_padding(zeros: Seq<u8>, bytes: Seq<u8>)
    requires
        forall|i: int| 0 <= i < zeros.len() ==> zeros[i] == 0,
    ensures
        be_value(zeros + bytes) == be_value(bytes),
    decreases bytes.len(), zeros.len(),
{
    if bytes.len() > 0 {
        assert((zeros + bytes).drop_last() =~= zeros + bytes.drop_last());
        lemma_be_value_padding(zeros, bytes.drop_last());
    } else if zeros.len() > 0 {
        assert(zeros + bytes =~= zeros);
        lemma_be_value_padding(zeros.drop_last(), bytes);
        assert(zeros.drop_last() + bytes =~= zeros.drop_last());
    } else {
        assert(zeros + bytes =~= bytes);
    }
}

/// `n * 2^p` as a `u64`.
pub fn modulus_of(n: u64, p: u8) -> (m: u64)
    requires
        modulus_fits(n as nat, p as nat),
    ensures
        m == modulus(n as nat, p as nat),
        m >= 1,
{
    let power = power_of_two(p);
    proof {
        assert(n * power >= 1) by (nonlinear_arith)
            requires
                n >= 1,
                power >= 1,
        ;
    }
    n * power
}

/// Reduces a digest to a fingerprint below `n * 2^p`.
pub fn digest_value(n: u64, p: u8, digest: &[u8]) -> (value: u64)
    requires
        modulus_fits(n as nat, p as nat),
    ensures
        value == digest_value_spec(n as nat, p as nat, digest@),
        value < modulus(n as nat, p as nat),
{
    let word = if digest.len() < 8 {
        let mut buf: Vec<u8> = Vec::new();
        let mut i: usize = digest.len();
        while i < 8
            invariant
                digest@.len() <= i <= 8,
                buf@.len() == i - digest@.len(),
                forall|k: int| 0 <= k < buf@.len() ==> buf@[k] == 0,
            decreases 8 - i,
        {
            buf.push(0);
            i = i + 1;
        }
        let ghost zeros = buf@;
        let mut k: usize = 0;
        while k < digest.len()
            invariant
                k <= digest@.len() < 8,
                zeros.len() == 8 - digest@.len(),
                buf@ == zeros + digest@.take(k as int),
            decreases digest.len() - k,
        {
            buf.push(digest[k]);
            k = k + 1;
            assert(digest@.take(k as int) =~= digest@.take(k - 1).push(digest@[k - 1]));
        }
        proof {
            assert(digest@.take(k as int) =~= digest@);
            assert(buf@.take(8) =~= zeros + digest@);
            lemma_be_value_padding(zeros, digest@);
        }
        read_u64_be(buf.as_slice())
    } else {
        read_u64_be(digest)
    };
    word % modulus_of(n, p)
}

/// The fingerprint of `input` in a set for `n` elements with exponent `p`:
/// a number below `n * 2^p`, the same for the same input every time.
pub fn fingerprint(hash: HashAlgorithm, n: u64, p: u8, input: &[u8]) -> (value: u64)
    requires
        modulus_fits(n as nat, p as nat),
    ensures
        value == fingerprint_spec(hash, n as nat, p as nat, input@),
        value < modulus(n as nat, p as nat),
{
    let digest = hash.digest(input);
    digest_value(n, p, digest.as_slice())
}

} // verus!
