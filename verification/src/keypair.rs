//! The capability traits the three cryptosystems implement, and the shared
//! chunked pipeline built on the padding and marshalling codecs.

use vstd::prelude::*;
use crate::codec::{
    pad_spec, unpad_spec, marshal_spec, unmarshal_spec, zext, pad_message, unpad_message,
    marshal_bytes, unmarshal_bytes, lemma_pad_round_trip,
};
use crate::hash::Hasher;
use crate::result::Error;

verus! {

/// The `i`-th full `k`-byte chunk of `s`.
pub open spec fn chunk_at(s: Seq<u8>, k: nat, i: int) -> Seq<u8> {
    s.subrange(i * k, i * k + k)
}

/// The `i`-th chunk of `s` where the last chunk may fall short of `k` bytes.
pub open spec fn plain_chunk(s: Seq<u8>, k: nat, i: int) -> Seq<u8> {
    if i * k + k <= s.len() {
        s.subrange(i * k, i * k + k)
    } else {
        s.subrange(i * k, s.len() as int)
    }
}

/// How many chunks of size `k` cover `len` bytes, the last one possibly short.
pub open spec fn num_chunks(len: nat, k: nat) -> nat
    recommends
        k > 0,
{
    if len % k == 0 {
        len / k
    } else {
        len / k + 1
    }
}

/// Blocks glued back together, each zero-extended to the chunk size.
pub open spec fn glue_blocks(ms: Seq<Seq<u8>>, k: nat) -> Seq<u8>
    decreases ms.len(),
{
    if ms.len() == 0 {
        Seq::empty()
    } else {
        zext(ms[0], k) + glue_blocks(ms.skip(1), k)
    }
}

proof fn lemma_glue_snoc(ms: Seq<Seq<u8>>, m: Seq<u8>, k: nat)
    ensures
        glue_blocks(ms.push(m), k) == glue_blocks(ms, k) + zext(m, k),
    decreases ms.len(),
{
    if ms.len() == 0 {
        assert(ms.push(m)[0] == m);
        assert(ms.push(m).skip(1) =~~= Seq::<Seq<u8>>::empty());
        assert(glue_blocks(ms.push(m).skip(1), k) =~= Seq::<u8>::empty());
        assert(glue_blocks(ms.push(m), k) =~= glue_blocks(ms, k) + zext(m, k));
    } else {
        assert(ms.push(m)[0] == ms[0]);
        assert(ms.push(m).skip(1) =~~= ms.skip(1).push(m));
        lemma_glue_snoc(ms.skip(1), m, k);
        assert(glue_blocks(ms.push(m), k) =~= glue_blocks(ms, k) + zext(m, k));
    }
}

/// Blocks that zero-extend to the successive chunks of `s` glue back to `s`
/// itself.
pub proof fn lemma_glue_chunks(ms: Seq<Seq<u8>>, s: Seq<u8>, k: nat)
    requires
        k >= 1,
        ms.len() * k == s.len(),
        forall|i: int| 0 <= i < ms.len() ==> zext(#[trigger] ms[i], k) == chunk_at(s, k, i),
    ensures
        glue_blocks(ms, k) == s,
    decreases ms.len(),
{
    if ms.len() == 0 {
        assert(s =~= Seq::<u8>::empty());
    } else {
        assert(ms.len() * k == (ms.len() - 1) * k + k) by {
            vstd::arithmetic::mul::lemma_mul_is_distributive_sub_other_way(
                k as int,
                ms.len() as int,
                1,
            );
        }
        assert((ms.len() - 1) * k >= 0) by {
            vstd::arithmetic::mul::lemma_mul_nonnegative(ms.len() - 1, k as int);
        }
        let rest = s.skip(k as int);
        assert(ms.skip(1).len() * k == rest.len());
        assert forall|i: int| 0 <= i < ms.skip(1).len() implies zext(
            #[trigger] ms.skip(1)[i],
            k,
        ) == chunk_at(rest, k, i) by {
            assert(ms.skip(1)[i] == ms[i + 1]);
            assert((i + 1) * k == i * k + k) by {
                vstd::arithmetic::mul::lemma_mul_is_distributive_add_other_way(k as int, i, 1);
            }
            assert((i + 2) * k == i * k + k + k) by {
                vstd::arithmetic::mul::lemma_mul_is_distributive_add_other_way(k as int, i, 2);
            }
            assert(i * k >= 0) by {
                vstd::arithmetic::mul::lemma_mul_nonnegative(i, k as int);
            }
            assert((i + 2) * k <= ms.len() * k) by {
                vstd::arithmetic::mul::lemma_mul_inequality(i + 2, ms.len() as int, k as int);
            }
            assert(chunk_at(rest, k, i) =~= chunk_at(s, k, i + 1));
        }
        lemma_glue_chunks(ms.skip(1), rest, k);
        assert(zext(ms[0], k) == chunk_at(s, k, 0));
        assert(chunk_at(s, k, 0) =~= s.take(k as int));
        assert(glue_blocks(ms, k) =~= s);
    }
}

/// A key that encrypts one block.
pub trait BlockEncrypt: Sized {
    /// Well-formedness of the key material.
    spec fn pk_wf(&self) -> bool;

    /// Whether a message block fits under this key's modulus.
    spec fn fits(&self, m: Seq<u8>) -> bool;

    /// What this key's ciphertext for a block looks like.
    spec fn cipher_rel(&self, m: Seq<u8>, c: Seq<u8>) -> bool;

    /// Encrypts one block; `SmallKey` exactly when the block does not fit.
    fn encrypt(&self, bytes: &[u8]) -> (r: Result<Vec<u8>, Error>)
        requires
            self.pk_wf(),
        ensures
            (match r {
                Ok(c) => self.fits(bytes@) && self.cipher_rel(bytes@, c@),
                Err(e) => e == Error::SmallKey && !self.fits(bytes@),
            }),
    ;

}

/// A public key, with the chunked pipeline over its block encryption.
pub trait PublicKey: BlockEncrypt {
    /// Pads and splits the message, encrypts each block, and marshals the
    /// ciphertext blocks into one stream.
    fn encrypt_chunked(&self, bytes: &[u8], chunk_size: usize) -> (r: Result<Vec<u8>, Error>)
        requires
            self.pk_wf(),
            8 <= chunk_size,
            bytes@.len() + 2 * chunk_size <= usize::MAX,
        ensures
            (match r {
                Ok(out) => exists|cs: Seq<Seq<u8>>|
                    #![trigger marshal_spec(cs)]
                    {
                        let padded = pad_spec(bytes@, chunk_size as nat);
                        &&& out@ == marshal_spec(cs)
                        &&& cs.len() * (chunk_size as nat) == padded.len()
                        &&& (forall|i: int|
                            0 <= i < cs.len() ==> self.fits(
                                #[trigger] chunk_at(padded, chunk_size as nat, i),
                            ) && self.cipher_rel(chunk_at(padded, chunk_size as nat, i), cs[i]))
                    },
                Err(e) => e == Error::SmallKey && (exists|i: int|
                    0 <= i < pad_spec(bytes@, chunk_size as nat).len() / (chunk_size as nat)
                        && !self.fits(
                        #[trigger] chunk_at(pad_spec(bytes@, chunk_size as nat), chunk_size as nat, i),
                    )),
            }),
    ;
}

/// The chunked ciphertext stream: the marshalled, blockwise encryption of
/// the padded message.
pub open spec fn chunked_cipher_rel<K: BlockEncrypt>(
    key: K,
    plain: Seq<u8>,
    k: nat,
    out: Seq<u8>,
) -> bool {
    exists|cs: Seq<Seq<u8>>|
        #![trigger marshal_spec(cs)]
        {
            let padded = pad_spec(plain, k);
            &&& out == marshal_spec(cs)
            &&& cs.len() * k == padded.len()
            &&& (forall|i: int|
                0 <= i < cs.len() ==> key.fits(#[trigger] chunk_at(padded, k, i)) && key.cipher_rel(
                    chunk_at(padded, k, i),
                    cs[i],
                ))
        }
}

/// A key that decrypts one block.
pub trait BlockDecrypt: Sized {
    /// Well-formedness of the key material.
    spec fn sk_wf(&self) -> bool;

    /// What a decrypted block looks like for a ciphertext block.
    spec fn plain_rel(&self, c: Seq<u8>, m: Seq<u8>) -> bool;

    /// Which errors this key's decryption can report, and on which inputs.
    spec fn fail_rel(&self, c: Seq<u8>, e: Error) -> bool;

    /// Decrypts one block.
    fn decrypt(&self, message: &[u8]) -> (r: Result<Vec<u8>, Error>)
        requires
            self.sk_wf(),
        ensures
            (match r {
                Ok(m) => self.plain_rel(message@, m@),
                Err(e) => self.fail_rel(message@, e),
            }),
    ;

}

/// A private key, with the chunked pipeline over its block decryption.
pub trait PrivateKey: BlockDecrypt {
    /// Unmarshals the stream, decrypts each block, re-aligns the blocks to
    /// the chunk size and strips the padding.
    fn decrypt_chunked(&self, message: &[u8], chunk_size: usize) -> (r: Result<Vec<u8>, Error>)
        requires
            self.sk_wf(),
            8 <= chunk_size,
        ensures
            (match r {
                Ok(m) => exists|bs: Seq<Seq<u8>>, ms: Seq<Seq<u8>>|
                    #![trigger bs.len(), glue_blocks(ms, chunk_size as nat)]
                    {
                        &&& unmarshal_spec(message@) == Some(bs)
                        &&& ms.len() == bs.len()
                        &&& (forall|i: int|
                            0 <= i < bs.len() ==> self.plain_rel(#[trigger] bs[i], ms[i]))
                        &&& unpad_spec(
                            glue_blocks(ms, chunk_size as nat),
                            chunk_size as nat,
                        ) == Some(m@)
                    },
                Err(e) => {
                    ||| (unmarshal_spec(message@) is None && e == Error::IncorrectAlgorithm)
                    ||| (exists|bs: Seq<Seq<u8>>, i: int|
                        #![trigger bs[i]]
                        {
                            &&& unmarshal_spec(message@) == Some(bs)
                            &&& 0 <= i < bs.len()
                            &&& self.fail_rel(bs[i], e)
                        })
                    ||| (exists|bs: Seq<Seq<u8>>, ms: Seq<Seq<u8>>|
                        #![trigger bs.len(), glue_blocks(ms, chunk_size as nat)]
                        {
                            &&& unmarshal_spec(message@) == Some(bs)
                            &&& ms.len() == bs.len()
                            &&& (forall|i: int|
                                0 <= i < bs.len() ==> self.plain_rel(#[trigger] bs[i], ms[i]))
                            &&& unpad_spec(
                                glue_blocks(ms, chunk_size as nat),
                                chunk_size as nat,
                            ) is None
                            &&& e == Error::MessageNotFound
                        })
                },
            }),
    ;
}

/// The chunked decryption: some blockwise decryption of the unmarshalled
/// stream glues and unpads to the result.
pub open spec fn chunked_plain_rel<K: BlockDecrypt>(
    key: K,
    c: Seq<u8>,
    k: nat,
    m: Seq<u8>,
) -> bool {
    exists|bs: Seq<Seq<u8>>, ms: Seq<Seq<u8>>|
        #![trigger bs.len(), glue_blocks(ms, k)]
        {
            &&& unmarshal_spec(c) == Some(bs)
            &&& ms.len() == bs.len()
            &&& (forall|i: int| 0 <= i < bs.len() ==> key.plain_rel(#[trigger] bs[i], ms[i]))
            &&& unpad_spec(glue_blocks(ms, k), k) == Some(m)
        }
}

/// A key that signs hashed data.
pub trait BlockSign<H: Hasher>: Sized {
    /// Well-formedness of the key material.
    spec fn sig_wf(&self) -> bool;

    /// What a signature of a digest looks like under this key.
    spec fn sig_rel(&self, digest: Seq<u8>, sig: Seq<u8>) -> bool;

    /// Which errors this key's signing can report; `false` for a total
    /// signer, on which signing is then contractually obliged to succeed.
    spec fn sig_fail(&self, e: Error) -> bool;

    /// Signs the digest of one block of data.
    fn sign(&self, data: &[u8], hashf: &H) -> (r: Result<Vec<u8>, Error>)
        requires
            self.sig_wf(),
        ensures
            (match r {
                Ok(s) => self.sig_rel(hashf.hash_spec(data@), s@),
                Err(e) => self.sig_fail(e),
            }),
    ;

}

/// A signing key, with the chunked pipeline over its block signing.
pub trait Signer<H: Hasher>: BlockSign<H> {
    /// Splits the data into chunks, signs each, and marshals the signatures.
    fn sign_chunked(&self, data: &[u8], hashf: &H, chunk_size: usize) -> (r: Result<
        Vec<u8>,
        Error,
    >)
        requires
            self.sig_wf(),
            1 <= chunk_size,
        ensures
            (match r {
                Ok(out) => exists|sigs: Seq<Seq<u8>>|
                    #![trigger marshal_spec(sigs)]
                    {
                        &&& out@ == marshal_spec(sigs)
                        &&& sigs.len() == num_chunks(data@.len(), chunk_size as nat)
                        &&& (forall|i: int|
                            0 <= i < sigs.len() ==> self.sig_rel(
                                hashf.hash_spec(plain_chunk(data@, chunk_size as nat, i)),
                                #[trigger] sigs[i],
                            ))
                    },
                Err(e) => self.sig_fail(e),
            }),
    ;
}

/// The chunked signature stream: one signature per plain chunk, marshalled.
pub open spec fn chunked_sig_rel<S: BlockSign<H>, H: Hasher>(
    key: S,
    h: H,
    data: Seq<u8>,
    k: nat,
    out: Seq<u8>,
) -> bool {
    exists|sigs: Seq<Seq<u8>>|
        #![trigger marshal_spec(sigs)]
        {
            &&& out == marshal_spec(sigs)
            &&& sigs.len() == num_chunks(data.len(), k)
            &&& (forall|i: int|
                0 <= i < sigs.len() ==> key.sig_rel(
                    h.hash_spec(plain_chunk(data, k, i)),
                    #[trigger] sigs[i],
                ))
        }
}

/// A key that checks signatures against expected data.
pub trait BlockVerify<H: Hasher>: Sized {
    /// Well-formedness of the key material.
    spec fn ver_wf(&self) -> bool;

    /// The exact verdict this key reaches for a digest and a signature.
    spec fn verdict(&self, digest: Seq<u8>, sig: Seq<u8>) -> bool;

    /// Which errors this key's verification can report, and on which inputs.
    spec fn ver_fail(&self, sig: Seq<u8>, e: Error) -> bool;

    /// Checks one signature block against the digest of the expected data.
    fn verify(&self, expected: &[u8], signed_data: &[u8], hashf: &H) -> (r: Result<bool, Error>)
        requires
            self.ver_wf(),
        ensures
            (match r {
                Ok(b) => b == self.verdict(hashf.hash_spec(expected@), signed_data@),
                Err(e) => self.ver_fail(signed_data@, e),
            }),
    ;

}

/// A verifying key, with the chunked pipeline over its block verification.
pub trait Verifier<H: Hasher>: BlockVerify<H> {
    /// Unmarshals the signatures and checks each against its chunk of the
    /// expected data; true only when the counts agree and every check passes.
    fn verify_chunked(
        &self,
        expected: &[u8],
        signed_data: &[u8],
        hashf: &H,
        chunk_size: usize,
    ) -> (r: Result<bool, Error>)
        requires
            self.ver_wf(),
            1 <= chunk_size,
        ensures
            (match r {
                Ok(b) => (match unmarshal_spec(signed_data@) {
                    Some(sigs) => b == (sigs.len() == num_chunks(
                        expected@.len(),
                        chunk_size as nat,
                    ) && (forall|i: int|
                        0 <= i < sigs.len() ==> self.verdict(
                            hashf.hash_spec(plain_chunk(expected@, chunk_size as nat, i)),
                            #[trigger] sigs[i],
                        ))),
                    None => false,
                }),
                Err(e) => {
                    ||| (unmarshal_spec(signed_data@) is None && e == Error::IncorrectAlgorithm)
                    ||| (exists|sigs: Seq<Seq<u8>>, i: int|
                        #![trigger sigs[i]]
                        {
                            &&& unmarshal_spec(signed_data@) == Some(sigs)
                            &&& 0 <= i < sigs.len()
                            &&& self.ver_fail(sigs[i], e)
                        })
                },
            }),
    ;
}

/// The shared body of [`PublicKey::encrypt_chunked`].
pub fn chunked_encrypt<K: BlockEncrypt>(key: &K, bytes: &[u8], chunk_size: usize) -> (r: Result<
    Vec<u8>,
    Error,
>)
    requires
        key.pk_wf(),
        8 <= chunk_size,
        bytes@.len() + 2 * chunk_size <= usize::MAX,
    ensures
        (match r {
            Ok(out) => chunked_cipher_rel(*key, bytes@, chunk_size as nat, out@),
            Err(e) => e == Error::SmallKey && (exists|i: int|
                0 <= i < pad_spec(bytes@, chunk_size as nat).len() / (chunk_size as nat)
                    && !key.fits(
                    #[trigger] chunk_at(pad_spec(bytes@, chunk_size as nat), chunk_size as nat, i),
                )),
        }),
{
    let padded = pad_message(bytes, chunk_size);
    let ghost pd = padded@;
    let ghost k = chunk_size as nat;
    proof {
        lemma_pad_round_trip(bytes@, k);
    }
    let n = padded.len() / chunk_size;
    proof {
        vstd::arithmetic::div_mod::lemma_fundamental_div_mod(pd.len() as int, chunk_size as int);
        assert(n * k == k * n) by {
            vstd::arithmetic::mul::lemma_mul_is_commutative(n as int, k as int);
        }
        assert(n * k == pd.len());
    }
    let mut blocks: Vec<Vec<u8>> = Vec::new();
    let mut i: usize = 0;
    while i < n
        invariant
            key.pk_wf(),
            8 <= chunk_size,
            k == chunk_size as nat,
            pd == padded@,
            pd == pad_spec(bytes@, chunk_size as nat),
            n * k == pd.len(),
            pd.len() <= usize::MAX,
            i <= n,
            blocks.deep_view().len() == i,
            forall|j: int|
                0 <= j < i ==> key.fits(#[trigger] chunk_at(pd, k, j)) && key.cipher_rel(
                    chunk_at(pd, k, j),
                    blocks.deep_view()[j],
                ),
        decreases n - i,
    {
        proof {
            assert((i + 1) * k <= n * k) by {
                vstd::arithmetic::mul::lemma_mul_inequality(i + 1, n as int, k as int);
            }
            assert((i + 1) * k == i * k + k) by {
                vstd::arithmetic::mul::lemma_mul_is_distributive_add_other_way(
                    k as int,
                    i as int,
                    1,
                );
            }
            assert(i * k >= 0) by {
                vstd::arithmetic::mul::lemma_mul_nonnegative(i as int, k as int);
            }
        }
        let chunk = vstd::slice::slice_subrange(
            padded.as_slice(),
            i * chunk_size,
            i * chunk_size + chunk_size,
        );
        let c = match key.encrypt(chunk) {
            Ok(c) => c,
            Err(e) => {
                proof {
                    assert(!key.fits(chunk_at(
                        pad_spec(bytes@, chunk_size as nat),
                        chunk_size as nat,
                        i as int,
                    )));
                    assert(pad_spec(bytes@, chunk_size as nat).len() / (chunk_size as nat)
                        == n) by {
                        vstd::arithmetic::div_mod::lemma_div_by_multiple(
                            n as int,
                            chunk_size as int,
                        );
                    }
                }
                return Err(e);
            },
        };
        let ghost old_blocks = blocks.deep_view();
        blocks.push(c);
        proof {
            assert(blocks.deep_view() =~~= old_blocks.push(c@));
            assert(chunk@ == chunk_at(pd, k, i as int));
        }
        i = i + 1;
    }
    let out = marshal_bytes(&blocks);
    proof {
        let cs = blocks.deep_view();
        assert(out@ == marshal_spec(cs));
        assert(cs.len() * k == pd.len());
        assert(chunked_cipher_rel(*key, bytes@, k, out@));
    }
    Ok(out)
}

/// The shared body of [`PrivateKey::decrypt_chunked`].
pub fn chunked_decrypt<K: BlockDecrypt>(key: &K, message: &[u8], chunk_size: usize) -> (r: Result<
    Vec<u8>,
    Error,
>)
    requires
        key.sk_wf(),
        8 <= chunk_size,
    ensures
        (match r {
            Ok(m) => chunked_plain_rel(*key, message@, chunk_size as nat, m@),
            Err(e) => {
                ||| (unmarshal_spec(message@) is None && e == Error::IncorrectAlgorithm)
                ||| (exists|bs: Seq<Seq<u8>>, i: int|
                    #![trigger bs[i]]
                    {
                        &&& unmarshal_spec(message@) == Some(bs)
                        &&& 0 <= i < bs.len()
                        &&& key.fail_rel(bs[i], e)
                    })
                ||| (exists|bs: Seq<Seq<u8>>, ms: Seq<Seq<u8>>|
                    #![trigger bs.len(), glue_blocks(ms, chunk_size as nat)]
                    {
                        &&& unmarshal_spec(message@) == Some(bs)
                        &&& ms.len() == bs.len()
                        &&& (forall|i: int|
                            0 <= i < bs.len() ==> key.plain_rel(#[trigger] bs[i], ms[i]))
                        &&& unpad_spec(
                            glue_blocks(ms, chunk_size as nat),
                            chunk_size as nat,
                        ) is None
                        &&& e == Error::MessageNotFound
                    })
            },
        }),
{
    let ghost k = chunk_size as nat;
    let blocks = match unmarshal_bytes(message) {
        Ok(bs) => bs,
        Err(e) => {
            return Err(e);
        },
    };
    let ghost bs = blocks.deep_view();
    let mut out: Vec<u8> = Vec::new();
    let ghost mut ms = Seq::<Seq<u8>>::empty();
    let mut i: usize = 0;
    proof {
        assert(out@ =~= glue_blocks(ms, k));
    }
    while i < blocks.len()
        invariant
            key.sk_wf(),
            8 <= chunk_size,
            k == chunk_size as nat,
            bs == blocks.deep_view(),
            unmarshal_spec(message@) == Some(bs),
            i <= bs.len(),
            ms.len() == i,
            forall|j: int| 0 <= j < i ==> key.plain_rel(#[trigger] bs[j], ms[j]),
            out@ == glue_blocks(ms, k),
        decreases bs.len() - i,
    {
        let block = &blocks[i];
        let mut m = match key.decrypt(block.as_slice()) {
            Ok(m) => m,
            Err(e) => {
                proof {
                    assert(bs[i as int] == blocks@[i as int]@);
                    assert(key.fail_rel(bs[i as int], e));
                }
                return Err(e);
            },
        };
        let ghost m0 = m@;
        while m.len() < chunk_size
            invariant
                m0 == m@.take(m0.len() as int),
                m0.len() <= m@.len() <= chunk_size || m@ == m0,
                forall|j: int| m0.len() <= j < m@.len() ==> m@[j] == 0,
            decreases chunk_size - m@.len(),
        {
            m.push(0u8);
            proof {
                assert(m@.take(m0.len() as int) =~= m0);
            }
        }
        proof {
            assert(m@ =~= zext(m0, k));
        }
        out.extend_from_slice(m.as_slice());
        proof {
            assert(bs[i as int] == blocks@[i as int]@);
            lemma_glue_snoc(ms, m0, k);
            ms = ms.push(m0);
            assert(ms[i as int] == m0);
        }
        i = i + 1;
    }
    let res = match unpad_message(out.as_slice(), chunk_size) {
        Ok(m) => m,
        Err(e) => {
            proof {
                assert(unpad_spec(glue_blocks(ms, chunk_size as nat), chunk_size as nat) is None);
                assert(bs.len() == ms.len());
            }
            return Err(e);
        },
    };
    proof {
        assert(chunked_plain_rel(*key, message@, k, res@));
    }
    Ok(res)
}

proof fn lemma_num_chunks_bounds(len: nat, k: nat)
    requires
        k >= 1,
    ensures
        num_chunks(len, k) * k >= len,
        (num_chunks(len, k) as int - 1) * k <= len,
        len % k == 0 ==> num_chunks(len, k) == len / k,
{
    let q = (len / k) as int;
    let r = (len % k) as int;
    vstd::arithmetic::div_mod::lemma_fundamental_div_mod(len as int, k as int);
    vstd::arithmetic::div_mod::lemma_mod_bound(len as int, k as int);
    assert(len == k * q + r);
    assert(q * k == k * q) by {
        vstd::arithmetic::mul::lemma_mul_is_commutative(q, k as int);
    }
    assert((q + 1) * k == q * k + k) by {
        vstd::arithmetic::mul::lemma_mul_is_distributive_add_other_way(k as int, q, 1);
    }
    assert(q * k >= 0) by {
        vstd::arithmetic::mul::lemma_mul_nonnegative(q, k as int);
    }
    assert((q - 1) * k == q * k - k) by {
        vstd::arithmetic::mul::lemma_mul_is_distributive_sub_other_way(k as int, q, 1);
    }
}

/// The shared body of [`Signer::sign_chunked`].
pub fn chunked_sign<S: BlockSign<H>, H: Hasher>(
    key: &S,
    data: &[u8],
    hashf: &H,
    chunk_size: usize,
) -> (r: Result<Vec<u8>, Error>)
    requires
        key.sig_wf(),
        1 <= chunk_size,
    ensures
        (match r {
            Ok(out) => chunked_sig_rel(*key, *hashf, data@, chunk_size as nat, out@),
            Err(e) => key.sig_fail(e),
        }),
{
    let ghost k = chunk_size as nat;
    let len = data.len();
    proof {
        vstd::arithmetic::div_mod::lemma_mod_bound(len as int, 1);
        if len as int % chunk_size as int != 0 && len > 1 {
            vstd::arithmetic::div_mod::lemma_div_is_strictly_smaller(
                len as int,
                chunk_size as int,
            );
        }
    }
    let n = if len % chunk_size == 0 {
        len / chunk_size
    } else {
        len / chunk_size + 1
    };
    proof {
        vstd::arithmetic::div_mod::lemma_fundamental_div_mod(len as int, chunk_size as int);
        vstd::arithmetic::div_mod::lemma_mod_bound(len as int, chunk_size as int);
        lemma_num_chunks_bounds(len as nat, k);
        assert(n == num_chunks(data@.len(), k));
    }
    let mut sigs: Vec<Vec<u8>> = Vec::new();
    let mut i: usize = 0;
    while i < n
        invariant
            key.sig_wf(),
            1 <= chunk_size,
            k == chunk_size as nat,
            len == data@.len(),
            n == num_chunks(data@.len(), k),
            n * k >= len,
            (n - 1) * k <= len,
            i <= n,
            sigs.deep_view().len() == i,
            forall|j: int|
                0 <= j < i ==> key.sig_rel(
                    hashf.hash_spec(plain_chunk(data@, k, j)),
                    #[trigger] sigs.deep_view()[j],
                ),
        decreases n - i,
    {
        proof {
            assert(i * k <= (n - 1) * k) by {
                vstd::arithmetic::mul::lemma_mul_inequality(i as int, n - 1, k as int);
            }
            assert((i + 1) * k == i * k + k) by {
                vstd::arithmetic::mul::lemma_mul_is_distributive_add_other_way(
                    k as int,
                    i as int,
                    1,
                );
            }
            assert(i * k >= 0) by {
                vstd::arithmetic::mul::lemma_mul_nonnegative(i as int, k as int);
            }
        }
        let lo = i * chunk_size;
        let hi = if len - lo < chunk_size {
            len
        } else {
            lo + chunk_size
        };
        let chunk = vstd::slice::slice_subrange(data, lo, hi);
        proof {
            assert(chunk@ == plain_chunk(data@, k, i as int));
        }
        let s = match key.sign(chunk, hashf) {
            Ok(s) => s,
            Err(e) => {
                return Err(e);
            },
        };
        let ghost old_sigs = sigs.deep_view();
        sigs.push(s);
        proof {
            assert(sigs.deep_view() =~~= old_sigs.push(s@));
        }
        i = i + 1;
    }
    let out = marshal_bytes(&sigs);
    proof {
        assert(chunked_sig_rel(*key, *hashf, data@, k, out@));
    }
    Ok(out)
}

/// The shared body of [`Verifier::verify_chunked`].
pub fn chunked_verify<V: BlockVerify<H>, H: Hasher>(
    key: &V,
    expected: &[u8],
    signed_data: &[u8],
    hashf: &H,
    chunk_size: usize,
) -> (r: Result<bool, Error>)
    requires
        key.ver_wf(),
        1 <= chunk_size,
    ensures
        (match r {
            Ok(b) => (match unmarshal_spec(signed_data@) {
                Some(sigs) => b == (sigs.len() == num_chunks(expected@.len(), chunk_size as nat)
                    && (forall|i: int|
                    0 <= i < sigs.len() ==> key.verdict(
                        hashf.hash_spec(plain_chunk(expected@, chunk_size as nat, i)),
                        #[trigger] sigs[i],
                    ))),
                None => false,
            }),
            Err(e) => {
                ||| (unmarshal_spec(signed_data@) is None && e == Error::IncorrectAlgorithm)
                ||| (exists|sigs2: Seq<Seq<u8>>, i: int|
                    #![trigger sigs2[i]]
                    {
                        &&& unmarshal_spec(signed_data@) == Some(sigs2)
                        &&& 0 <= i < sigs2.len()
                        &&& key.ver_fail(sigs2[i], e)
                    })
            },
        }),
{
    let ghost k = chunk_size as nat;
    let blocks = match unmarshal_bytes(signed_data) {
        Ok(bs) => bs,
        Err(e) => {
            return Err(e);
        },
    };
    let ghost sigs = blocks.deep_view();
    let len = expected.len();
    proof {
        assert(sigs.len() == blocks@.len());
        vstd::arithmetic::div_mod::lemma_mod_bound(len as int, 1);
        if len as int % chunk_size as int != 0 && len > 1 {
            vstd::arithmetic::div_mod::lemma_div_is_strictly_smaller(
                len as int,
                chunk_size as int,
            );
        }
    }
    let n = if len % chunk_size == 0 {
        len / chunk_size
    } else {
        len / chunk_size + 1
    };
    proof {
        vstd::arithmetic::div_mod::lemma_fundamental_div_mod(len as int, chunk_size as int);
        vstd::arithmetic::div_mod::lemma_mod_bound(len as int, chunk_size as int);
        lemma_num_chunks_bounds(len as nat, k);
        assert(n == num_chunks(expected@.len(), k));
    }
    if blocks.len() != n {
        return Ok(false);
    }
    let mut i: usize = 0;
    while i < n
        invariant
            key.ver_wf(),
            1 <= chunk_size,
            k == chunk_size as nat,
            len == expected@.len(),
            n == num_chunks(expected@.len(), k),
            n * k >= len,
            (n - 1) * k <= len,
            sigs == blocks.deep_view(),
            unmarshal_spec(signed_data@) == Some(sigs),
            sigs.len() == n,
            i <= n,
            forall|j: int|
                0 <= j < i ==> key.verdict(
                    hashf.hash_spec(plain_chunk(expected@, k, j)),
                    #[trigger] sigs[j],
                ),
        decreases n - i,
    {
        proof {
            assert(i * k <= (n - 1) * k) by {
                vstd::arithmetic::mul::lemma_mul_inequality(i as int, n - 1, k as int);
            }
            assert((i + 1) * k == i * k + k) by {
                vstd::arithmetic::mul::lemma_mul_is_distributive_add_other_way(
                    k as int,
                    i as int,
                    1,
                );
            }
            assert(i * k >= 0) by {
                vstd::arithmetic::mul::lemma_mul_nonnegative(i as int, k as int);
            }
        }
        let lo = i * chunk_size;
        let hi = if len - lo < chunk_size {
            len
        } else {
            lo + chunk_size
        };
        let chunk = vstd::slice::slice_subrange(expected, lo, hi);
        proof {
            assert(chunk@ == plain_chunk(expected@, k, i as int));
        }
        proof {
            assert(sigs[i as int] == blocks@[i as int]@);
        }
        let ok = match key.verify(chunk, blocks[i].as_slice(), hashf) {
            Ok(b) => b,
            Err(e) => {
                proof {
                    assert(key.ver_fail(sigs[i as int], e));
                }
                return Err(e);
            },
        };
        if !ok {
            proof {
                assert(unmarshal_spec(signed_data@) == Some(sigs));
                assert(!(forall|j: int|
                    0 <= j < sigs.len() ==> key.verdict(
                        hashf.hash_spec(plain_chunk(expected@, chunk_size as nat, j)),
                        #[trigger] sigs[j],
                    ))) by {
                    assert(!key.verdict(
                        hashf.hash_spec(plain_chunk(expected@, chunk_size as nat, i as int)),
                        sigs[i as int],
                    ));
                }
            }
            return Ok(false);
        }
        i = i + 1;
    }
    Ok(true)
}

} // verus!
