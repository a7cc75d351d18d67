//! Knot hash: a ring of bytes permuted by reversing circular segments,
//! then folded into a short digest.

mod dense;
mod hex;
mod knot;
mod lengths;
mod permute;
mod ring;

pub use ring::{add_mod, lemma_reverse_segment_involution, reverse_segment, segment_end, swap_slice};
pub use permute::{
    hash, identity_ring, knot_rounds, knot_step, lemma_knot_rounds_concat,
    lemma_zero_length_only_advances, repeat_lengths, rounds_end, sparse_hash,
};
pub use lengths::{
    convert_lengths, digits_value, is_digit, parse_length, parse_lengths, parsed_lengths,
    split_commas, unsigned_part, COMMA, PLUS,
};
pub use dense::{block, dense_digest, dense_hash, xor_fold};
pub use hex::{as_hex_string, hex_char, hex_text};
pub use knot::{knot_digest, knot_hash, length_suffix, RING_SIZE, ROUNDS};
