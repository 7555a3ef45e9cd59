//! Decoding of the (256, 128) LDPC code.

pub mod parity_check_matrix;
pub mod parity_check_lemmas;
pub mod message;
pub mod decoder;
