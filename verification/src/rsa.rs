//! The RSA engine: key generation, single-block encryption and decryption,
//! and the encrypt-with-private-exponent signature scheme.

use vstd::prelude::*;
use vstd::arithmetic::power::pow;
use crate::bigint::{ubig_value, big_from_u64, big_from_le, big_to_le, big_lt, big_mul, big_sub};
use crate::codec::{
    le_nat, le_min, pow256, resize_spec, resize_bytes, bytes_equal, lemma_le_min_value,
    lemma_le_min_len, lemma_le_min_zext, lemma_pad_round_trip, lemma_marshal_round_trip,
    pad_spec, unpad_spec, marshal_spec, unmarshal_spec, zext,
};
use crate::hash::Hasher;
use crate::kernel::{pow_mod, mod_inverse, mul_mod, gen_sized_prime};
use crate::keypair::{
    BlockEncrypt, BlockDecrypt, BlockSign, BlockVerify, PublicKey, PrivateKey, Signer, Verifier,
    chunked_encrypt, chunked_decrypt, chunked_sign, chunked_verify, chunked_cipher_rel,
    chunked_plain_rel, chunk_at, glue_blocks, lemma_glue_chunks,
};
use crate::result::Error;

verus! {

/// Public key for the RSA algorithm.
pub struct RsaPublic {
    /// Public exponent used for encryption.
    pub exponent: ibig::UBig,
    /// Public modulus used for encryption.
    pub divisor: ibig::UBig,
}

/// Private key for the RSA algorithm.
pub struct RsaPrivate {
    /// Private exponent used for decryption.
    pub exponent: ibig::UBig,
    /// First prime factor of the public modulus.
    pub prime_1: ibig::UBig,
    /// Second prime factor of the public modulus.
    pub prime_2: ibig::UBig,
}

/// An RSA key pair for encryption, decryption and signatures.
pub struct RsaKeyPair {
    /// The public key for encryption.
    pub public: RsaPublic,
    /// The private key for decryption.
    pub private: RsaPrivate,
}

impl RsaPublic {
    /// The key is usable when its modulus is positive.
    pub open spec fn wf_spec(&self) -> bool {
        ubig_value(self.divisor) > 0
    }

    /// The ciphertext value for a message value under this key.
    pub open spec fn raise_public(&self, m: nat) -> nat {
        (pow(m as int, ubig_value(self.exponent)) % (ubig_value(self.divisor) as int)) as nat
    }
}

impl BlockEncrypt for RsaPublic {
    open spec fn pk_wf(&self) -> bool {
        self.wf_spec()
    }

    open spec fn fits(&self, m: Seq<u8>) -> bool {
        le_nat(m) < ubig_value(self.divisor)
    }

    open spec fn cipher_rel(&self, m: Seq<u8>, c: Seq<u8>) -> bool {
        c == le_min(self.raise_public(le_nat(m)))
    }

    fn encrypt(&self, bytes: &[u8]) -> (r: Result<Vec<u8>, Error>) {
        let m = big_from_le(bytes);
        if !big_lt(&m, &self.divisor) {
            return Err(Error::SmallKey);
        }
        let c = pow_mod(&m, &self.exponent, &self.divisor);
        Ok(big_to_le(&c))
    }

}

impl PublicKey for RsaPublic {
    fn encrypt_chunked(&self, bytes: &[u8], chunk_size: usize) -> (r: Result<Vec<u8>, Error>) {
        chunked_encrypt(self, bytes, chunk_size)
    }
}

impl<H: Hasher> BlockVerify<H> for RsaPublic {
    open spec fn ver_wf(&self) -> bool {
        self.wf_spec()
    }

    open spec fn verdict(&self, digest: Seq<u8>, sig: Seq<u8>) -> bool {
        resize_spec(le_min(self.raise_public(le_nat(sig))), digest.len()) == digest
    }

    open spec fn ver_fail(&self, sig: Seq<u8>, e: Error) -> bool {
        false
    }

    fn verify(&self, expected: &[u8], signed_data: &[u8], hashf: &H) -> (r:
        Result<bool, Error>) {
        let expected_hash = hashf.hash(expected);
        let s = big_from_le(signed_data);
        let raised = pow_mod(&s, &self.exponent, &self.divisor);
        let out = resize_bytes(big_to_le(&raised), expected_hash.len());
        Ok(bytes_equal(out.as_slice(), expected_hash.as_slice()))
    }

}

impl<H: Hasher> Verifier<H> for RsaPublic {
    fn verify_chunked(
        &self,
        expected: &[u8],
        signed_data: &[u8],
        hashf: &H,
        chunk_size: usize,
    ) -> (r: Result<bool, Error>) {
        chunked_verify(self, expected, signed_data, hashf, chunk_size)
    }
}

impl RsaPrivate {
    /// The key is usable when both prime factors are positive.
    pub open spec fn wf_spec(&self) -> bool {
        ubig_value(self.prime_1) >= 1 && ubig_value(self.prime_2) >= 1
    }

    /// The plaintext value for a ciphertext value under this key.
    pub open spec fn raise_private(&self, c: nat) -> nat {
        (pow(c as int, ubig_value(self.exponent)) % ((ubig_value(self.prime_1) * ubig_value(
            self.prime_2,
        )) as int)) as nat
    }
}

impl BlockDecrypt for RsaPrivate {
    open spec fn sk_wf(&self) -> bool {
        self.wf_spec()
    }

    open spec fn plain_rel(&self, c: Seq<u8>, m: Seq<u8>) -> bool {
        m == le_min(self.raise_private(le_nat(c)))
    }

    open spec fn fail_rel(&self, c: Seq<u8>, e: Error) -> bool {
        false
    }

    fn decrypt(&self, message: &[u8]) -> (r: Result<Vec<u8>, Error>) {
        let div = big_mul(&self.prime_1, &self.prime_2);
        proof {
            vstd::arithmetic::mul::lemma_mul_strictly_positive(
                ubig_value(self.prime_1) as int,
                ubig_value(self.prime_2) as int,
            );
        }
        let m = big_from_le(message);
        let out = pow_mod(&m, &self.exponent, &div);
        Ok(big_to_le(&out))
    }

}

impl PrivateKey for RsaPrivate {
    fn decrypt_chunked(&self, message: &[u8], chunk_size: usize) -> (r: Result<Vec<u8>, Error>) {
        chunked_decrypt(self, message, chunk_size)
    }
}

impl<H: Hasher> BlockSign<H> for RsaPrivate {
    open spec fn sig_wf(&self) -> bool {
        self.wf_spec()
    }

    open spec fn sig_rel(&self, digest: Seq<u8>, sig: Seq<u8>) -> bool {
        sig == le_min(self.raise_private(le_nat(digest)))
    }

    open spec fn sig_fail(&self, e: Error) -> bool {
        false
    }

    fn sign(&self, data: &[u8], hashf: &H) -> (r: Result<Vec<u8>, Error>) {
        let divisor = big_mul(&self.prime_1, &self.prime_2);
        proof {
            vstd::arithmetic::mul::lemma_mul_strictly_positive(
                ubig_value(self.prime_1) as int,
                ubig_value(self.prime_2) as int,
            );
        }
        let data_hash = hashf.hash(data);
        let dh = big_from_le(data_hash.as_slice());
        let out = pow_mod(&dh, &self.exponent, &divisor);
        Ok(big_to_le(&out))
    }

}

impl<H: Hasher> Signer<H> for RsaPrivate {
    fn sign_chunked(&self, data: &[u8], hashf: &H, chunk_size: usize) -> (r: Result<
        Vec<u8>,
        Error,
    >) {
        chunked_sign(self, data, hashf, chunk_size)
    }
}


/// The number-theoretic heart of RSA, assumed of a key pair: raising every
/// value below the modulus to the first exponent and then the second
/// restores it.  Fermat-Euler gives it whenever the modulus is a product of
/// two distinct primes and the exponents invert each other modulo the
/// totient; primality of the randomly drawn factors is probabilistic, so it
/// stands here as a premise rather than a theorem.
pub open spec fn inverts(e: nat, d: nat, n: nat) -> bool {
    forall|x: nat|
        x < n ==> (pow(#[trigger] pow(x as int, e) % (n as int), d) % (n as int)) as nat == x
}

/// Round trip of the whole chunked pipeline for RSA: whatever ciphertext
/// stream `encrypt_chunked` relates to a message, `decrypt_chunked` relates
/// back to the message itself, provided the key pair's exponents invert each
/// other in the sense of [`inverts`].
pub proof fn lemma_rsa_chunked_round_trip(
    pk: RsaPublic,
    sk: RsaPrivate,
    plain: Seq<u8>,
    k: nat,
    out: Seq<u8>,
)
    requires
        ubig_value(pk.divisor) == ubig_value(sk.prime_1) * ubig_value(sk.prime_2),
        2 <= ubig_value(pk.divisor),
        ubig_value(pk.divisor) < pow256(u64::MAX as nat),
        8 <= k <= u64::MAX,
        inverts(ubig_value(pk.exponent), ubig_value(sk.exponent), ubig_value(pk.divisor)),
        chunked_cipher_rel(pk, plain, k, out),
    ensures
        chunked_plain_rel(sk, out, k, plain),
{
    let n = ubig_value(pk.divisor);
    let e = ubig_value(pk.exponent);
    let d = ubig_value(sk.exponent);
    let padded = pad_spec(plain, k);
    let cs = choose|cs: Seq<Seq<u8>>|
        #![trigger marshal_spec(cs)]
        {
            &&& out == marshal_spec(cs)
            &&& cs.len() * k == padded.len()
            &&& (forall|i: int|
                0 <= i < cs.len() ==> pk.fits(#[trigger] chunk_at(padded, k, i)) && pk.cipher_rel(
                    chunk_at(padded, k, i),
                    cs[i],
                ))
        };
    assert forall|i: int| 0 <= i < cs.len() implies #[trigger] cs[i].len() <= u64::MAX by {
        let cval = pk.raise_public(le_nat(chunk_at(padded, k, i)));
        vstd::arithmetic::div_mod::lemma_mod_bound(
            pow(le_nat(chunk_at(padded, k, i)) as int, e),
            n as int,
        );
        lemma_le_min_len(cval, u64::MAX as nat);
    }
    lemma_marshal_round_trip(cs);
    let ms = Seq::new(cs.len(), |i: int| le_min(sk.raise_private(le_nat(cs[i]))));
    assert forall|i: int| 0 <= i < cs.len() implies sk.plain_rel(#[trigger] cs[i], ms[i]) by {
        assert(ms[i] == le_min(sk.raise_private(le_nat(cs[i]))));
    }
    assert forall|i: int| 0 <= i < ms.len() implies zext(#[trigger] ms[i], k) == chunk_at(
        padded,
        k,
        i,
    ) by {
        let chunk = chunk_at(padded, k, i);
        let mval = le_nat(chunk);
        assert(pk.fits(chunk));
        lemma_le_min_value(pk.raise_public(mval));
        assert(le_nat(cs[i]) == pk.raise_public(mval));
        assert(sk.raise_private(pk.raise_public(mval)) == mval) by {
            assert((pow(pow(mval as int, e) % (n as int), d) % (n as int)) as nat == mval);
        }
        assert(ms[i] == le_min(mval));
        assert(i * k >= 0) by {
            vstd::arithmetic::mul::lemma_mul_nonnegative(i, k as int);
        }
        assert((i + 1) * k == i * k + k) by {
            vstd::arithmetic::mul::lemma_mul_is_distributive_add_other_way(k as int, i, 1);
        }
        assert((i + 1) * k <= cs.len() * k) by {
            vstd::arithmetic::mul::lemma_mul_inequality(i + 1, cs.len() as int, k as int);
        }
        assert(chunk.len() == k);
        lemma_le_min_zext(chunk);
    }
    lemma_glue_chunks(ms, padded, k);
    lemma_pad_round_trip(plain, k);
    assert(unmarshal_spec(out) == Some(cs));
    assert(unpad_spec(glue_blocks(ms, k), k) == Some(plain));
    assert(ms.len() == cs.len());
}

/// The chunked decryption relation admits at most one plaintext for a given
/// stream: with the round-trip law above, whatever `decrypt_chunked` accepts
/// of an `encrypt_chunked` stream is the encrypted message itself.
pub proof fn lemma_rsa_chunked_decrypt_unique(
    sk: RsaPrivate,
    c: Seq<u8>,
    k: nat,
    m1: Seq<u8>,
    m2: Seq<u8>,
)
    requires
        chunked_plain_rel(sk, c, k, m1),
        chunked_plain_rel(sk, c, k, m2),
    ensures
        m1 == m2,
{
    let (bs1, ms1) = choose|bs: Seq<Seq<u8>>, ms: Seq<Seq<u8>>|
        #![trigger bs.len(), glue_blocks(ms, k)]
        {
            &&& unmarshal_spec(c) == Some(bs)
            &&& ms.len() == bs.len()
            &&& (forall|i: int| 0 <= i < bs.len() ==> sk.plain_rel(#[trigger] bs[i], ms[i]))
            &&& unpad_spec(glue_blocks(ms, k), k) == Some(m1)
        };
    let (bs2, ms2) = choose|bs: Seq<Seq<u8>>, ms: Seq<Seq<u8>>|
        #![trigger bs.len(), glue_blocks(ms, k)]
        {
            &&& unmarshal_spec(c) == Some(bs)
            &&& ms.len() == bs.len()
            &&& (forall|i: int| 0 <= i < bs.len() ==> sk.plain_rel(#[trigger] bs[i], ms[i]))
            &&& unpad_spec(glue_blocks(ms, k), k) == Some(m2)
        };
    assert(bs1 == bs2);
    assert forall|i: int| 0 <= i < ms1.len() implies ms1[i] == ms2[i] by {
        assert(sk.plain_rel(bs1[i], ms1[i]));
        assert(sk.plain_rel(bs2[i], ms2[i]));
    }
    assert(ms1 =~~= ms2);
}

/// Soundness of the RSA signature scheme, under the same [`inverts`]
/// premise: a signature produced for a digest verifies against that digest.
pub proof fn lemma_rsa_sign_verify(pk: RsaPublic, sk: RsaPrivate, digest: Seq<u8>, sig: Seq<u8>)
    requires
        ubig_value(pk.divisor) == ubig_value(sk.prime_1) * ubig_value(sk.prime_2),
        2 <= ubig_value(pk.divisor),
        ubig_value(pk.divisor) < pow256(u64::MAX as nat),
        le_nat(digest) < ubig_value(pk.divisor),
        inverts(ubig_value(sk.exponent), ubig_value(pk.exponent), ubig_value(pk.divisor)),
        sig == le_min(sk.raise_private(le_nat(digest))),
    ensures
        BlockVerify::<crate::hash::DigestSum>::verdict(&pk, digest, sig),
{
    let n = ubig_value(pk.divisor);
    let e = ubig_value(pk.exponent);
    let d = ubig_value(sk.exponent);
    let hv = le_nat(digest);
    lemma_le_min_value(sk.raise_private(hv));
    assert(le_nat(sig) == sk.raise_private(hv));
    assert(pk.raise_public(sk.raise_private(hv)) == hv) by {
        assert((pow(pow(hv as int, d) % (n as int), e) % (n as int)) as nat == hv);
    }
    lemma_le_min_zext(digest);
    crate::codec::lemma_le_nat_bound(digest);
    lemma_le_min_len(hv, digest.len());
    assert(resize_spec(le_min(pk.raise_public(le_nat(sig))), digest.len()) == digest);
}

impl RsaKeyPair {
    /// A well-formed pair: the modulus is the product of the two primes, the
    /// public exponent is 2^16 + 1, and the private exponent inverts it
    /// modulo the totient.
    pub open spec fn wf_spec(&self) -> bool {
        let p = ubig_value(self.private.prime_1);
        let q = ubig_value(self.private.prime_2);
        let tot = ((p - 1) * (q - 1)) as nat;
        &&& p >= 3
        &&& q >= 3
        &&& ubig_value(self.public.divisor) == p * q
        &&& ubig_value(self.public.exponent) == 65537
        &&& mul_mod(65537, ubig_value(self.private.exponent), tot) == 1nat % tot
        &&& ubig_value(self.private.exponent) < tot
    }

    /// The generated prime factors have exactly the requested bit length.
    pub open spec fn sized_spec(&self, bits: nat) -> bool {
        let p = ubig_value(self.private.prime_1);
        let q = ubig_value(self.private.prime_2);
        &&& vstd::arithmetic::power2::pow2((bits - 1) as nat) <= p
            < vstd::arithmetic::power2::pow2(bits)
        &&& vstd::arithmetic::power2::pow2((bits - 1) as nat) <= q
            < vstd::arithmetic::power2::pow2(bits)
    }

    /// Generates an RSA key pair: two probable primes of the requested bit
    /// length, the fixed public exponent 2^16 + 1, and its inverse modulo
    /// the totient.  Reports `MathError` only if no drawn pair admits the
    /// inverse within the attempt bound.  At least three bits are required:
    /// the floor the candidate-drawing arithmetic of the prime generator
    /// needs.
    pub fn new(bit_length: usize, persistence: usize) -> (r: Result<Self, Error>)
        requires
            3 <= bit_length,
        ensures
            (match r {
                Ok(kp) => kp.wf_spec() && kp.sized_spec(bit_length as nat),
                Err(e) => e == Error::MathError,
            }),
    {
        let one = big_from_u64(1);
        let mut tries: u64 = 0;
        while tries < u64::MAX
            invariant
                3 <= bit_length,
                ubig_value(one) == 1,
            decreases u64::MAX - tries,
        {
            let e = big_from_u64(65537);
            let p = gen_sized_prime(bit_length, persistence);
            let q = gen_sized_prime(bit_length, persistence);
            proof {
                lemma_prime_floor(bit_length);
            }
            let n = big_mul(&p, &q);
            let pm1 = big_sub(&p, &one);
            let qm1 = big_sub(&q, &one);
            let tot = big_mul(&pm1, &qm1);
            proof {
                vstd::arithmetic::mul::lemma_mul_strictly_positive(
                    ubig_value(pm1) as int,
                    ubig_value(qm1) as int,
                );
            }
            match mod_inverse(&e, &tot) {
                Ok(d) => {
                    return Ok(
                        RsaKeyPair {
                            public: RsaPublic { exponent: e, divisor: n },
                            private: RsaPrivate { exponent: d, prime_1: p, prime_2: q },
                        },
                    );
                },
                Err(_) => {},
            }
            tries = tries + 1;
        }
        Err(Error::MathError)
    }
}

/// A prime of at least three bits is at least four.
pub proof fn lemma_prime_floor(bit_length: usize)
    requires
        3 <= bit_length,
    ensures
        vstd::arithmetic::power2::pow2((bit_length - 1) as nat) >= 4,
{
    vstd::arithmetic::power2::lemma2_to64();
    if bit_length - 1 > 2 {
        vstd::arithmetic::power2::lemma_pow2_strictly_increases(2, (bit_length - 1) as nat);
    }
}

impl RsaKeyPair {
    /// The public half of the pair.
    pub fn public_key(&self) -> (r: &RsaPublic)
        ensures
            r == &self.public,
    {
        &self.public
    }

    /// The private half of the pair.
    pub fn private_key(&self) -> (r: &RsaPrivate)
        ensures
            r == &self.private,
    {
        &self.private
    }
}

impl BlockEncrypt for RsaKeyPair {
    open spec fn pk_wf(&self) -> bool {
        self.public.pk_wf()
    }

    open spec fn fits(&self, m: Seq<u8>) -> bool {
        self.public.fits(m)
    }

    open spec fn cipher_rel(&self, m: Seq<u8>, c: Seq<u8>) -> bool {
        self.public.cipher_rel(m, c)
    }

    fn encrypt(&self, bytes: &[u8]) -> (r: Result<Vec<u8>, Error>) {
        self.public.encrypt(bytes)
    }

}

impl PublicKey for RsaKeyPair {
    fn encrypt_chunked(&self, bytes: &[u8], chunk_size: usize) -> (r: Result<Vec<u8>, Error>) {
        chunked_encrypt(self, bytes, chunk_size)
    }
}

impl BlockDecrypt for RsaKeyPair {
    open spec fn sk_wf(&self) -> bool {
        self.private.sk_wf()
    }

    open spec fn plain_rel(&self, c: Seq<u8>, m: Seq<u8>) -> bool {
        self.private.plain_rel(c, m)
    }

    open spec fn fail_rel(&self, c: Seq<u8>, e: Error) -> bool {
        false
    }

    fn decrypt(&self, message: &[u8]) -> (r: Result<Vec<u8>, Error>) {
        self.private.decrypt(message)
    }

}

impl PrivateKey for RsaKeyPair {
    fn decrypt_chunked(&self, message: &[u8], chunk_size: usize) -> (r: Result<Vec<u8>, Error>) {
        chunked_decrypt(self, message, chunk_size)
    }
}

impl<H: Hasher> BlockSign<H> for RsaKeyPair {
    open spec fn sig_wf(&self) -> bool {
        BlockSign::<H>::sig_wf(&self.private)
    }

    open spec fn sig_rel(&self, digest: Seq<u8>, sig: Seq<u8>) -> bool {
        BlockSign::<H>::sig_rel(&self.private, digest, sig)
    }

    open spec fn sig_fail(&self, e: Error) -> bool {
        BlockSign::<H>::sig_fail(&self.private, e)
    }

    fn sign(&self, data: &[u8], hashf: &H) -> (r: Result<Vec<u8>, Error>) {
        self.private.sign(data, hashf)
    }

}

impl<H: Hasher> Signer<H> for RsaKeyPair {
    fn sign_chunked(&self, data: &[u8], hashf: &H, chunk_size: usize) -> (r: Result<
        Vec<u8>,
        Error,
    >) {
        chunked_sign(self, data, hashf, chunk_size)
    }
}

impl<H: Hasher> BlockVerify<H> for RsaKeyPair {
    open spec fn ver_wf(&self) -> bool {
        BlockVerify::<H>::ver_wf(&self.public)
    }

    open spec fn verdict(&self, digest: Seq<u8>, sig: Seq<u8>) -> bool {
        BlockVerify::<H>::verdict(&self.public, digest, sig)
    }

    open spec fn ver_fail(&self, sig: Seq<u8>, e: Error) -> bool {
        false
    }

    fn verify(&self, expected: &[u8], signed_data: &[u8], hashf: &H) -> (r:
        Result<bool, Error>) {
        self.public.verify(expected, signed_data, hashf)
    }

}

impl<H: Hasher> Verifier<H> for RsaKeyPair {
    fn verify_chunked(
        &self,
        expected: &[u8],
        signed_data: &[u8],
        hashf: &H,
        chunk_size: usize,
    ) -> (r: Result<bool, Error>) {
        chunked_verify(self, expected, signed_data, hashf, chunk_size)
    }
}

} // verus!
