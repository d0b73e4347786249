//! The packed form of a set: the differences between its ascending
//! fingerprints, Golomb-Rice coded into one bit stream. It is small, and a
//! search has to decode it from the start.

use crate::bits::bits_to_bytes;
use crate::bits::bytes_to_bits;
use crate::bits::max_bits;
use crate::bits::BitBuffer;
use crate::bits::BitReader;
use crate::error::GcsError;
use crate::golomb::decode_one;
use crate::golomb::golomb_decode;
use crate::hash::fingerprint;
use crate::hash::fingerprint_spec;
use crate::hash::HashAlgorithm;
use crate::params::valid_parameters;
use crate::stream::decode_from;
use crate::stream::decode_set;
use crate::stream::lemma_decoded_ascending;
use crate::stream::lemma_encode_decoded_set;
use crate::stream::lookup_from;
use crate::unpacked::UnpackedGcs;
use vstd::prelude::*;

verus! {

/// A packed Golomb-coded set.
#[derive(Clone, Debug, PartialEq)]
pub struct Gcs {
    n: usize,
    p: u8,
    data: BitBuffer,
    hash: HashAlgorithm,
}

impl Gcs {
    /// The number of elements that the set is made for.
    pub closed spec fn capacity(&self) -> nat {
        self.n as nat
    }

    /// The exponent `p` of the false-positive rate `1 / 2^p`.
    pub closed spec fn exponent(&self) -> nat {
        self.p as nat
    }

    /// The hash algorithm that the fingerprints come from.
    pub closed spec fn algorithm(&self) -> HashAlgorithm {
        self.hash
    }

    /// The bit stream of the set.
    pub closed spec fn bits(&self) -> Seq<bool> {
        self.data@
    }

    /// The parameters of the set are valid. Nothing is asked of the bit
    /// stream, which may come from anywhere.
    pub open spec fn wf(&self) -> bool {
        valid_parameters(self.capacity(), self.exponent())
    }

    /// The fingerprint that `input` has in this set.
    pub open spec fn fingerprint_of(&self, input: Seq<u8>) -> nat {
        fingerprint_spec(self.algorithm(), self.capacity(), self.exponent(), input)
    }

    /// The fingerprints that the bit stream holds: the sums of the
    /// differences that its code words decode to. There are none where a
    /// code word is cut short or a sum is beyond 64 bits.
    pub open spec fn decoded(&self) -> Option<Seq<u64>> {
        decode_set(self.bits(), self.exponent())
    }

    /// What a search for the fingerprint `target` finds in the bit stream.
    pub open spec fn lookup(&self, target: nat) -> Option<bool> {
        lookup_from(0, self.bits(), self.exponent(), target)
    }

    /// A packed set of the given bits.
    pub(crate) fn from_parts(n: usize, p: u8, data: BitBuffer, hash: HashAlgorithm) -> (set: Self)
        ensures
            set.bits() == data@,
            set.capacity() == n,
            set.exponent() == p,
            set.algorithm() == hash,
    {
        Gcs { n, p, data, hash }
    }

    /// Makes a packed set of the bytes of a packed bit stream, all of
    /// them, the most significant bit of each byte first. The stream does
    /// not say what `n`, `p` and the hash algorithm are: they are those of
    /// the set that was packed.
    pub fn from_reader(source: Vec<u8>, n: usize, p: u8, hash: HashAlgorithm) -> (set: Self)
        requires
            valid_parameters(n as nat, p as nat),
            8 * source.len() <= max_bits(),
        ensures
            set.wf(),
            set.bits() == bytes_to_bits(source@),
            set.capacity() == n,
            set.exponent() == p,
            set.algorithm() == hash,
    {
        Gcs { n, p, data: BitBuffer::from_bytes(source), hash }
    }

    /// Writes the bit stream behind what `writer` holds: eight bits to a
    /// byte, the first of them the most significant, with zeros behind the
    /// last bit up to the end of its byte. Neither a length nor `n` or `p`
    /// is written.
    pub fn write(&self, writer: &mut Vec<u8>)
        ensures
            final(writer)@ == old(writer)@ + bits_to_bytes(self.bits()),
    {
        let bytes = self.data.to_bytes();
        writer.extend_from_slice(bytes.as_slice());
    }

    /// The number of elements that the set is made for.
    pub fn n(&self) -> (n: usize)
        ensures
            n == self.capacity(),
    {
        self.n
    }

    /// The exponent of the false-positive rate.
    pub fn p(&self) -> (p: u8)
        ensures
            p == self.exponent(),
    {
        self.p
    }

    /// The hash algorithm of the set.
    pub fn hash(&self) -> (hash: HashAlgorithm)
        ensures
            hash == self.algorithm(),
    {
        self.hash
    }

    /// The bit stream of the set.
    pub fn data(&self) -> (data: &BitBuffer)
        ensures
            data@ == self.bits(),
    {
        &self.data
    }

    /// Searches the bit stream for the fingerprint `target`: the
    /// differences are decoded from the start and summed up, and the
    /// search ends at the first sum that is `target`. A code word that does
    /// not decode before that is an error.
    pub fn contains_fingerprint(&self, target: u64) -> (result: Result<bool, GcsError>)
        requires
            self.wf(),
        ensures
            match self.lookup(target as nat) {
                Some(found) => result == Ok::<bool, GcsError>(found),
                None => result == Err::<bool, GcsError>(GcsError::DecodeError),
            },
    {
        let mut reader = BitReader::new(&self.data);
        let mut last: u64 = 0;
        proof {
            assert(reader.remaining() =~= self.bits());
        }
        while !reader.is_exhausted()
            invariant
                reader.wf(),
                reader.all_bits() == self.bits(),
                self.wf(),
                self.p == self.exponent(),
                self.lookup(target as nat) == lookup_from(
                    last as nat,
                    reader.remaining(),
                    self.exponent(),
                    target as nat,
                ),
            decreases reader.remaining().len(),
        {
            let ghost before = reader.remaining();
            let decoded = match golomb_decode(&mut reader, self.p) {
                Ok(decoded) => decoded,
                Err(e) => {
                    return Err(e);
                },
            };
            proof {
                let used = decode_one(before, self.exponent())->Some_0.1;
                assert(reader.remaining() =~= before.skip(used as int));
            }
            match last.checked_add(decoded) {
                None => {
                    return Err(GcsError::DecodeError);
                },
                Some(sum) => {
                    if target == sum {
                        return Ok(true);
                    }
                    last = sum;
                },
            }
        }
        Ok(false)
    }

    /// Returns whether or not an input is contained in the set. If false
    /// the input is definitely not present, if true the input is probably
    /// present.
    pub fn contains(&self, input: &[u8]) -> (result: Result<bool, GcsError>)
        requires
            self.wf(),
        ensures
            match self.lookup(self.fingerprint_of(input@)) {
                Some(found) => result == Ok::<bool, GcsError>(found),
                None => result == Err::<bool, GcsError>(GcsError::DecodeError),
            },
    {
        let target = fingerprint(self.hash, self.n as u64, self.p, input);
        self.contains_fingerprint(target)
    }

    /// Unpacks the set into an `UnpackedGcs`, which is quicker to search
    /// and takes more memory: every difference is decoded, and their sums
    /// are the fingerprints. Where a code word does not decode, nothing is
    /// returned but the error.
    pub fn unpack(&self) -> (result: Result<UnpackedGcs, GcsError>)
        requires
            self.wf(),
        ensures
            match self.decoded() {
                Some(values) => result matches Ok(set) && set@ == values && set.wf()
                    && set.packs_to(self) && set.packable(),
                None => result matches Err(e) && e == GcsError::DecodeError,
            },
    {
        let mut reader = BitReader::new(&self.data);
        let mut values: Vec<u64> = Vec::new();
        let mut last: u64 = 0;
        proof {
            assert(reader.remaining() =~= self.bits());
            let whole = self.decoded();
            if whole is Some {
                assert(values@ + whole->Some_0 =~= whole->Some_0);
            }
        }
        while !reader.is_exhausted()
            invariant
                reader.wf(),
                reader.all_bits() == self.bits(),
                self.wf(),
                self.p == self.exponent(),
                self.decoded() == match decode_from(
                    last as nat,
                    reader.remaining(),
                    self.exponent(),
                ) {
                    Some(rest) => Some(values@ + rest),
                    None => None,
                },
            decreases reader.remaining().len(),
        {
            let ghost before = reader.remaining();
            let decoded = match golomb_decode(&mut reader, self.p) {
                Ok(decoded) => decoded,
                Err(e) => {
                    return Err(e);
                },
            };
            let sum = match last.checked_add(decoded) {
                None => {
                    return Err(GcsError::DecodeError);
                },
                Some(sum) => sum,
            };
            proof {
                let used = decode_one(before, self.exponent())->Some_0.1;
                assert(reader.remaining() =~= before.skip(used as int));
                let rest = decode_from(sum as nat, reader.remaining(), self.exponent());
                if rest is Some {
                    assert(values@ + (seq![sum] + rest->Some_0) =~= values@.push(sum)
                        + rest->Some_0);
                }
            }
            values.push(sum);
            last = sum;
        }
        proof {
            assert(values@ + Seq::<u64>::empty() =~= values@);
            lemma_decoded_ascending(0, self.bits(), self.exponent());
            lemma_encode_decoded_set(0, self.bits(), self.exponent());
        }
        Ok(UnpackedGcs::from_parts(self.n, self.p, values, self.hash))
    }
}

} // verus!
