//! What holds between the two forms of a set.

use crate::packed::Gcs;
use crate::stream::lemma_decode_encode_set;
use crate::stream::lemma_encode_decoded_set;
use crate::stream::lemma_lookup_decoded;
use crate::unpacked::lemma_sorted_insert;
use crate::unpacked::sorted_insert;
use crate::unpacked::UnpackedGcs;
use vstd::prelude::*;

verus! {

/// Packing and unpacking give the set back: the packed form of a set
/// decodes to the same fingerprints in the same order, under the same
/// parameters.
pub proof fn lemma_pack_unpack(set: UnpackedGcs, packed: Gcs)
    requires
        set.wf(),
        set.packs_to(&packed),
    ensures
        packed.decoded() == Some(set@),
        packed.capacity() == set.capacity(),
        packed.exponent() == set.exponent(),
        packed.algorithm() == set.algorithm(),
{
    lemma_decode_encode_set(0, set@, set.exponent());
}

/// Unpacking and packing give the bit stream back: the set that a packed
/// set unpacks to has the same parameters and packs into the same bits.
pub proof fn lemma_unpack_pack(packed: Gcs, set: UnpackedGcs)
    requires
        packed.decoded() == Some(set@),
        set.capacity() == packed.capacity(),
        set.exponent() == packed.exponent(),
        set.algorithm() == packed.algorithm(),
    ensures
        set.packs_to(&packed),
{
    lemma_encode_decoded_set(0, packed.bits(), packed.exponent());
}

/// A search in the packed form of a set finds what a search in the set
/// itself finds, and never fails.
pub proof fn lemma_packed_lookup(set: UnpackedGcs, packed: Gcs, target: u64)
    requires
        set.wf(),
        set.packs_to(&packed),
    ensures
        packed.lookup(target as nat) == Some(set@.contains(target)),
{
    lemma_decode_encode_set(0, set@, set.exponent());
    lemma_lookup_decoded(0, packed.bits(), packed.exponent(), target);
}

/// No false negatives: once a fingerprint has been inserted, it is found
/// in the set and in its packed form, and so is every fingerprint that was
/// in the set before.
pub proof fn lemma_no_false_negatives(
    before: UnpackedGcs,
    after: UnpackedGcs,
    packed: Gcs,
    value: u64,
    earlier: u64,
)
    requires
        before.wf(),
        after.wf(),
        after@ == sorted_insert(before@, value),
        after.packs_to(&packed),
        before@.contains(earlier),
    ensures
        after@.contains(value),
        after@.contains(earlier),
        packed.lookup(value as nat) == Some(true),
        packed.lookup(earlier as nat) == Some(true),
{
    lemma_sorted_insert(before@, value);
    lemma_packed_lookup(after, packed, value);
    lemma_packed_lookup(after, packed, earlier);
}

} // verus!
