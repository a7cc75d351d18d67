//! The standard knot hash of a text.
use crate::dense::{dense_digest, dense_hash};
use crate::lengths::convert_lengths;
use crate::permute::{identity_ring, knot_rounds, repeat_lengths, sparse_hash};
use vstd::prelude::*;
use vstd::string::StringSliceAdditionalSpecFns;

verus! {

/// The number of bytes in the ring of the standard hash.
pub const RING_SIZE: usize = 256;

/// How many times the standard hash applies its lengths.
pub const ROUNDS: usize = 64;

/// The lengths that the standard hash appends to those of its input.
pub open spec fn length_suffix() -> Seq<u8> {
    seq![17u8, 31u8, 73u8, 47u8, 23u8]
}

/// The standard digest of the bytes `input`: their lengths followed by the
/// suffix, applied 64 times in a row to a ring of 256 bytes, then folded.
pub open spec fn knot_digest(input: Seq<u8>) -> Seq<u8> {
    dense_digest(
        knot_rounds(
            identity_ring(RING_SIZE as nat),
            repeat_lengths(input + length_suffix(), ROUNDS as nat),
            0,
            0,
        ),
    )
}

/// The 16-byte knot hash of the bytes of `s`.
pub fn knot_hash(s: &str) -> (r: Vec<u8>)
    ensures
        r@ == knot_digest(s.spec_bytes()),
        r@.len() == 16,
{
    let lengths = convert_lengths(s);
    let extra: Vec<u8> = vec![17, 31, 73, 47, 23];
    assert(extra@ =~= length_suffix());
    let sparse = sparse_hash(RING_SIZE, lengths, extra, ROUNDS);
    dense_hash(sparse.as_slice())
}

} // verus!
