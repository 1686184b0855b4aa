//! The hash interface the signature schemes are parameterized over, and one
//! simple byte-sum digest.

use vstd::prelude::*;
use crate::codec::{le_bytes, spec_shr256};

verus! {

/// A hash function handed to the signing and verifying operations.  Each
/// implementation fixes its output through `hash_spec`.
pub trait Hasher {
    spec fn hash_spec(&self, data: Seq<u8>) -> Seq<u8>;

    fn hash(&self, data: &[u8]) -> (r: Vec<u8>)
        ensures
            r@ == self.hash_spec(data@),
    ;
}

/// The plain sum of the bytes of a string.
pub open spec fn byte_sum(s: Seq<u8>) -> nat
    decreases s.len(),
{
    if s.len() == 0 {
        0
    } else {
        (byte_sum(s.drop_last()) + s.last()) as nat
    }
}

/// A toy digest: the sum of all bytes, reduced to 64 bits and written as
/// eight little-endian bytes.
pub struct DigestSum;

impl Hasher for DigestSum {
    open spec fn hash_spec(&self, data: Seq<u8>) -> Seq<u8> {
        le_bytes(byte_sum(data) % 0x1_0000_0000_0000_0000, 8)
    }

    fn hash(&self, data: &[u8]) -> (r: Vec<u8>)
        ensures
            r@ == self.hash_spec(data@),
    {
        let mut sum: u128 = 0;
        let mut i: usize = 0;
        proof {
            lemma_byte_sum_bound(data@.take(0));
            assert(data@.take(0) =~= Seq::<u8>::empty());
        }
        while i < data.len()
            invariant
                i <= data@.len(),
                sum == byte_sum(data@.take(i as int)),
                sum <= 255 * i,
            decreases data@.len() - i,
        {
            let b = data[i];
            proof {
                assert(data@.take(i + 1).drop_last() =~= data@.take(i as int));
                assert(data@.take(i + 1).last() == b);
            }
            sum = sum + b as u128;
            i = i + 1;
        }
        proof {
            assert(data@.take(data@.len() as int) =~= data@);
        }
        let low: u64 = (sum % 0x1_0000_0000_0000_0000u128) as u64;
        let mut out: Vec<u8> = Vec::new();
        let ghost total = byte_sum(data@) % 0x1_0000_0000_0000_0000;
        proof {
            assert(out@ =~= le_bytes(total, 0));
        }
        let mut v: u64 = low;
        let mut t: usize = 0;
        while t < 8
            invariant
                t <= 8,
                out@ == le_bytes(total, t as nat),
                v == spec_shr256(total, t as nat),
            decreases 8 - t,
        {
            proof {
                crate::codec::lemma_le_bytes_snoc(total, t as nat);
                crate::codec::lemma_le_bytes_len(total, t as nat);
            }
            out.push((v % 256) as u8);
            v = v / 256;
            t = t + 1;
        }
        out
    }
}

proof fn lemma_byte_sum_bound(s: Seq<u8>)
    ensures
        byte_sum(s) <= 255 * s.len(),
    decreases s.len(),
{
    if s.len() > 0 {
        lemma_byte_sum_bound(s.drop_last());
    }
}

} // verus!
