//! Breaking repeating-key XOR: bit distances, text-likeness criteria, key
//! length estimation, the single-byte solver and the column attack built on
//! them, together with the hex and base64 codecs that feed them bytes.

pub mod bytes;
pub mod choice;
pub mod criteria;
pub mod encoding;
pub mod keysize;
pub mod repeated;
pub mod score;
pub mod single_byte;
pub mod xor;
