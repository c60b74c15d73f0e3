use vstd::prelude::*;

verus! {

/// Why an attack gave no plaintext.
#[derive(Debug, Clone, Copy, PartialEq, Eq, Structural)]
pub enum Error {
    /// The ciphertext is not a whole number of blocks: `found` bytes cannot be cut into
    /// blocks of `blocksize` bytes.
    WrongSize { blocksize: usize, found: usize },
    /// At some byte position the oracle confirmed none of the 256 candidate values. The
    /// oracle is broken or inconsistent, or the padding scheme is not PKCS#7.
    InvalidPadding,
}

} // verus!
