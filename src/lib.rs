//! Base58 text, fixed-width base-3 digits, residues modulo a set of
//! pairwise-coprime moduli, 3x3 dot matrices and Chinese-remainder
//! reconstruction, each with a verified contract.
pub mod matrix;
pub mod modular;
pub mod crt;
pub mod trinary;
pub mod base58;
pub mod pipeline;
