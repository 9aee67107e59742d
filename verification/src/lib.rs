//! Parsing of textual numerals into a 128-bit magnitude and a sign flag.
//!
//! A numeral is decimal (`"123"`), hexadecimal behind a `0x` prefix
//! (`"0x1a"`), or negative decimal behind a `-` sign (`"-123"`); a negative
//! value is returned as its two's-complement bit pattern within 128 bits.

pub mod utils;
