//! A reversible codec that packs a sequence of strings into one
//! self-delimiting string, and a frequency query on integer lists.

mod anagrams;
mod codec;
mod errors;
mod frequency;
mod laws;
mod wire;

pub use anagrams::{
    all_lower, anagram_class, byte_count, freq_map_of, has_group, texts_of, gen_freq_map, group_anagrams, letter_counts, InputError,
    MAX_WORD_LEN,
};
pub use codec::{decode, encode};
pub use errors::{DecodeError, DecodeErrorKind};
pub use frequency::{occurrences, top_k_frequent};
pub use laws::{
    at_boundary, lemma_no_length_overflow, lemma_non_digit_marker, lemma_round_trip,
    lemma_sentinel_first, lemma_truncated_marker,
};
pub use wire::{
    decimal, decoded, digit_byte, encoding, initial, is_digit, lemma_run_error_persists, record,
    run, step, DecoderState, Machine, SENTINEL,
};
