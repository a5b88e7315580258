//! Line-oriented rewriting of hexadecimal integer tokens into decimal.
//!
//! The library recognizes tokens that look like hexadecimal integer
//! literals (an optional lowercase `0x` prefix followed by at least two
//! hex digits, delimited by word boundaries) and replaces each one by its
//! decimal value, right-justified in a field as wide as the original
//! token. Everything else passes through unchanged.

pub mod driver;
pub mod matcher;
pub mod numeral;
pub mod text;
pub mod transform;

pub use driver::{drive_step, StepAction};
pub use matcher::{token_at, TokenMatch};
pub use transform::{hex2dec_line, ParseOverflow};
