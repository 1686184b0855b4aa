use vstd::prelude::*;

verus! {

/// Failure modes shared by every cryptosystem in this crate.
#[derive(Debug, Clone, Copy, PartialEq, Eq, Structural)]
pub enum Error {
    /// The message block, read as an integer, does not fit under the key's modulus.
    SmallKey,
    /// A wire-format value was handed to a decode path that cannot parse it.
    IncorrectAlgorithm,
    /// No decryption candidate carried the expected tag.
    MessageNotFound,
    /// An intermediate modular inverse or square root does not exist.
    MathError,
}

} // verus!
