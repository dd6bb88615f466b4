//! Conversion of numeric literals between positional numeral systems of
//! radix 2 through 36.
//!
//! The core is a pair of pure converters: [`convert_integer_part`] turns a
//! most-significant-first digit sequence in one radix into the digit
//! sequence of the same magnitude in another, and [`convert_fractional_part`]
//! does the same for a fractional digit sequence under a caller-supplied
//! precision bound. Around them stand a parser from text to digit sequences
//! and a formatter from digit sequences back to text.

pub mod converter;
pub mod formatter;
pub mod parser;

pub use converter::{convert_fractional_part, convert_integer_part};
pub use formatter::format_result;
pub use parser::parse_number;
