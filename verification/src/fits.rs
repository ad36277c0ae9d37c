//! Access to FITS-format files: the fixed-format header grammar, a
//! block-by-block stream decoder, and an HDU structure scanner.

pub mod records;
pub mod decoder;
pub mod parser;
