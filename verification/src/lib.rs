//! Fixed-width base62 codec for 128-bit integers.
//!
//! Every value in `[0, 2^128 - 1]` corresponds to exactly one 22-character
//! string over the alphabet `0-9a-zA-Z`, left-padded with `0`. Decoding
//! rejects strings of any other length, strings holding characters outside
//! the alphabet, and the 22-character strings whose value exceeds
//! `2^128 - 1` (base62 has room for more than 128 bits in 22 digits, so the
//! range check is digit-wise, before any arithmetic that could overflow).

mod alphabet;
mod codec;
mod divrem;
mod laws;
mod radix;

pub use alphabet::base62_char;
pub use alphabet::base62_val;
pub use codec::get_b62;
pub use codec::get_integer;
pub use laws::b62_lex_lt;
pub use laws::lemma_decode_of_encode;
pub use laws::lemma_encode_of_decode;
pub use laws::lemma_encoding_monotonic;
pub use laws::lemma_lex_lt_implies_value_lt;
