//! Recovery of the plaintext of a CBC-mode, PKCS#7-padded ciphertext from nothing but
//! a padding oracle: a predicate that tells whether a byte string decrypts to a validly
//! padded message.
//!
//! - [`attack`] holds the executable code: [`decrypt`] and the steps it is made of.
//! - [`oracle`] wraps the caller's predicate and keeps the record of its calls.
//! - [`model`] says what the attack computes, position by position.
//! - [`transcript`] says which queries the attack makes, one by one.
//! - [`determinism`] proves that a consistent oracle fixes the whole attack.
//! - [`cbc`] and [`recovery`] prove that the attack finds the true plaintext when the
//!   oracle is honest.

pub mod attack;
pub mod cbc;
pub mod determinism;
pub mod error;
pub mod model;
pub mod oracle;
pub mod recovery;
pub mod transcript;

pub use attack::{decrypt, decrypt_with, forge, search};
pub use error::Error;
pub use oracle::Oracle;
