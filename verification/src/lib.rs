//! Classical public-key cryptosystems (RSA, ElGamal, Rabin) built directly on
//! arbitrary-precision integer arithmetic, together with the padding, chunking
//! and marshalling codecs that let each system carry messages longer than one
//! modulus.

pub mod result;
pub mod codec;
pub mod bigint;
pub mod kernel;
pub mod keypair;
pub mod hash;
pub mod rsa;
pub mod elgamal;
pub mod rabin;
pub mod tobytes;
pub mod typed;

pub use keypair::{BlockDecrypt, BlockEncrypt, BlockSign, BlockVerify, PrivateKey, PublicKey, Signer, Verifier};
pub use result::Error;
