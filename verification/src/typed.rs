//! Plain containers that callers use to hand message material around.

use vstd::prelude::*;

verus! {

/// A payload together with the chunk size it is meant to be processed with.
#[derive(Debug)]
pub struct Content {
    /// The chunk size for the chunked operations.
    pub chunk_size: usize,
    /// The payload bytes.
    pub data: Vec<u8>,
}

impl Content {
    /// Wraps a payload with its chunk size.
    pub fn new(chunk_size: usize, data: &[u8]) -> (r: Self)
        ensures
            r.chunk_size == chunk_size,
            r.data@ == data@,
    {
        Content { chunk_size, data: vstd::slice::slice_to_vec(data) }
    }
}

/// The forms of message content the library distinguishes.
#[derive(Debug, Clone, Copy, PartialEq, Eq, Structural)]
pub enum ContentType {
    Text,
    Bytes,
}

} // verus!
