//! Conversion of common owned and borrowed data into the byte strings the
//! engines consume.

use vstd::prelude::*;
use vstd::string::StringSliceAdditionalSpecFns;
use vstd::utf8::encode_utf8;

verus! {

/// Data that can be turned into its byte representation.
pub trait ToBytes: Sized {
    /// The bytes this value stands for.
    spec fn bytes_spec(self) -> Seq<u8>;

    fn to_bytes(self) -> (r: Vec<u8>)
        ensures
            r@ == self.bytes_spec(),
    ;
}

impl<'s> ToBytes for &'s str {
    open spec fn bytes_spec(self) -> Seq<u8> {
        self.spec_bytes()
    }

    fn to_bytes(self) -> (r: Vec<u8>) {
        vstd::slice::slice_to_vec(self.as_bytes())
    }
}

impl ToBytes for String {
    open spec fn bytes_spec(self) -> Seq<u8> {
        encode_utf8(self@)
    }

    fn to_bytes(self) -> (r: Vec<u8>) {
        vstd::slice::slice_to_vec(self.as_str().as_bytes())
    }
}

impl<'s> ToBytes for &'s [u8] {
    open spec fn bytes_spec(self) -> Seq<u8> {
        self@
    }

    fn to_bytes(self) -> (r: Vec<u8>) {
        vstd::slice::slice_to_vec(self)
    }
}

impl ToBytes for Vec<u8> {
    open spec fn bytes_spec(self) -> Seq<u8> {
        self@
    }

    fn to_bytes(self) -> (r: Vec<u8>) {
        self
    }
}

} // verus!
