//! A block cipher whose encryption multiplies blocks of data by the product
//! of a key's lower and upper triangles, and whose decryption solves the two
//! triangular systems in turn.
//!
//! - `field`: the identities and random sampling the matrix engine asks of
//!   its elements.
//! - `matrix`: dense matrices; exact 64-bit integer arithmetic with overflow
//!   reported, the parallel product, and the triangular solver.
//! - `encryption`: key generation in decimal fixed point, encryption, and
//!   direct decryption, with the law that decryption inverts encryption.
//! - `codec`: the 4-bit pieces of text and 16-bit samples, block reshaping
//!   with padding, and the length-framed text and audio ciphertexts.
//! - `keyfile`: the byte layout of a stored key.

pub mod codec;
pub mod encryption;
pub mod field;
pub mod keyfile;
pub mod matrix;
