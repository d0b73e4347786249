//! Golomb-coded sets: a probabilistic membership structure that is smaller
//! than a Bloom filter and slower to query.
//!
//! A set is built in its unpacked form, an ascending list of fingerprints,
//! and can be packed into a stream of Golomb-Rice coded differences.
//!
//! The functions carry contracts over sequences of bits, bytes and
//! fingerprints, and Verus proves them. What is taken on trust is marked
//! `external_body`: the bit vector of `bitvec`, the digests, and a few
//! calls into `byteorder` and `num_integer`.

pub mod bits;
pub mod error;
pub mod golomb;
pub mod hash;
pub mod laws;
pub mod packed;
pub mod params;
pub mod stream;
pub mod unpacked;

pub use crate::bits::BitBuffer;
pub use crate::bits::BitReader;
pub use crate::error::GcsError;
pub use crate::golomb::golomb_decode;
pub use crate::golomb::golomb_encode;
pub use crate::hash::HashAlgorithm;
pub use crate::packed::Gcs;
pub use crate::unpacked::UnpackedGcs;
