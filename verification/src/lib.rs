//! Collision-free index codes of a fixed nominal length.
//!
//! A [`FlowControlIndexFormatter`] writes an index as a short code. An index
//! below `radix^length` becomes its numeral, padded with zeros to `length`
//! digits. Larger indices spill into overflow tiers: tier after tier gives up
//! one more leading digit, to a symbol of a letter alphabet that selects a
//! block of indices, and marks each tier passed by the last symbol of the
//! alphabet. Every index up to a computable maximum so has a code of its
//! own, and `decode_index` reads it back.
//!
//! The modules, from the ground up:
//!
//! - [`numeral`]: what the digits of a number are, and what number digits
//!   denote;
//! - [`alphabet`]: the two alphabets and what makes an alphabet unambiguous;
//! - [`capacity`]: the tiers, and the largest index of a nominal length;
//! - [`encoding`]: the code of an index, its layout, and that codes differ;
//! - [`decoding`]: what a code tells about its index;
//! - [`text`]: appending characters and rendering numerals, the two calls
//!   whose contracts are taken on trust;
//! - [`formatter`]: the formatter itself;
//! - [`error`]: how its operations fail.

pub mod alphabet;
pub mod capacity;
pub mod decoding;
pub mod encoding;
pub mod error;
pub mod formatter;
pub mod numeral;
pub mod text;

pub use error::FormatError;
pub use formatter::FlowControlIndexFormatter;
