//! Byte-signature compilation and scanning.
//!
//! A signature is a byte sequence in which some positions are fixed and
//! others are wildcards.  A signature compiles into a [`Pattern`]: an
//! ordered sequence of comparison atoms, where runs of fixed bytes are
//! chunked into word-sized little-endian comparisons and runs of wildcard
//! bytes collapse into single skip atoms.  A [`Scanner`] slides a
//! pattern-sized window across a haystack and yields every matching offset.
//!
//! Multi-byte comparison atoms always decode their bytes little-endian,
//! in the order the signature writes them, so a compiled pattern means
//! the same thing on every host.

#![verifier::loop_isolation(false)]

mod atom;
mod compile;
mod decode;
mod laws;
mod pattern;
mod scanner;

pub use atom::Atom;
pub use atom::{atom_matches, atom_size, le_value};
pub use compile::{masked_at, run_end, spec_compile_from, spec_literal_atoms};
pub use decode::{
    first_space, hex_val, is_hex_digit, is_hex_tok, is_wild_tok, spec_tokens, tok_byte, tok_ok,
    toks_bytes, toks_mask, toks_ok, ScannerError,
};
pub use laws::{
    lemma_compile_deterministic, lemma_compile_size, lemma_pattern_matches_own_bytes,
    lemma_wildcard_run_one_atom,
};
pub use pattern::Pattern;
pub use pattern::{seq_size, spec_matches};
pub use scanner::{is_match_at, Scanner};
