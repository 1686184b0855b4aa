//! The ElGamal engine: key generation over a random prime, two-component
//! randomized encryption, and the signature scheme over the group order.

use vstd::prelude::*;
use vstd::arithmetic::power::pow;
use vstd::arithmetic::power2::pow2;
use crate::bigint::{
    ubig_value, big_from_u64, big_from_le, big_to_le, big_lt, big_eq, big_mul, big_sub, big_add,
    big_clone,
};
use crate::codec::{
    le_nat, le_min, pow256, marshal_spec, unmarshal_spec, lemma_le_min_value, lemma_le_min_len,
    lemma_marshal_round_trip,
};
use crate::hash::Hasher;
use crate::kernel::{
    pow_mod, mod_inverse, mod_sub, mod_mul, mul_mod, invertible, gen_sized_prime, random_below,
};
use crate::keypair::{
    BlockEncrypt, BlockDecrypt, BlockSign, BlockVerify, PublicKey, PrivateKey, Signer, Verifier,
    chunked_encrypt, chunked_decrypt, chunked_sign, chunked_verify,
};
use crate::result::Error;

verus! {

/// Public key for the ElGamal cryptosystem.
pub struct ElGamalPublic {
    /// The prime modulus of the group.
    pub prime: ibig::UBig,
    /// The public group element.
    pub alpha: ibig::UBig,
    /// `alpha` raised to the secret key.
    pub beta: ibig::UBig,
}

/// Private key for the ElGamal cryptosystem.
pub struct ElGamalPrivate {
    /// The public group element, kept for signing.
    pub alpha: ibig::UBig,
    /// The prime modulus of the group.
    pub prime: ibig::UBig,
    /// The secret exponent.
    pub key: ibig::UBig,
}

/// A key pair for the ElGamal cryptosystem.
pub struct ElGamalKeyPair {
    /// The public key for encryption and verification.
    pub public: ElGamalPublic,
    /// The private key for decryption and signing.
    pub private: ElGamalPrivate,
}

impl ElGamalPublic {
    /// The key is usable when the modulus leaves room below it.
    pub open spec fn wf_spec(&self) -> bool {
        ubig_value(self.prime) >= 5
    }

    /// The ciphertext stream for message value `m` under nonce `r`: the
    /// marshalled pair `alpha^r mod p` and `m * beta^r mod p`.
    pub open spec fn cipher_with(&self, m: nat, r: nat) -> Seq<u8> {
        let p = ubig_value(self.prime) as int;
        let c1 = (pow(ubig_value(self.alpha) as int, r) % p) as nat;
        let c2 = ((m * pow(ubig_value(self.beta) as int, r)) % p) as nat;
        marshal_spec(seq![le_min(c1), le_min(c2)])
    }

    /// Encrypts one block with an explicit nonce, deterministically.
    pub fn encrypt_with_nonce(&self, bytes: &[u8], nonce: &ibig::UBig) -> (r: Result<
        Vec<u8>,
        Error,
    >)
        requires
            self.wf_spec(),
        ensures
            (match r {
                Ok(c) => le_nat(bytes@) < ubig_value(self.prime) && c@ == self.cipher_with(
                    le_nat(bytes@),
                    ubig_value(*nonce),
                ),
                Err(e) => e == Error::SmallKey && le_nat(bytes@) >= ubig_value(self.prime),
            }),
    {
        let m = big_from_le(bytes);
        if !big_lt(&m, &self.prime) {
            return Err(Error::SmallKey);
        }
        let c1 = pow_mod(&self.alpha, nonce, &self.prime);
        let br = pow_mod(&self.beta, nonce, &self.prime);
        let c2 = mod_mul(&m, &br, &self.prime);
        proof {
            vstd::arithmetic::div_mod::lemma_mul_mod_noop_right(
                ubig_value(m) as int,
                pow(ubig_value(self.beta) as int, ubig_value(*nonce)),
                ubig_value(self.prime) as int,
            );
        }
        let c1b = big_to_le(&c1);
        let c2b = big_to_le(&c2);
        let mut parts: Vec<Vec<u8>> = Vec::new();
        parts.push(c1b);
        parts.push(c2b);
        let out = crate::codec::marshal_bytes(&parts);
        proof {
            let p = ubig_value(self.prime) as int;
            let c1v = (pow(ubig_value(self.alpha) as int, ubig_value(*nonce)) % p) as nat;
            let c2v = ((le_nat(bytes@) * pow(ubig_value(self.beta) as int, ubig_value(*nonce)))
                % p) as nat;
            assert(parts.deep_view() =~~= seq![le_min(c1v), le_min(c2v)]);
        }
        Ok(out)
    }
}

impl BlockEncrypt for ElGamalPublic {
    open spec fn pk_wf(&self) -> bool {
        self.wf_spec()
    }

    open spec fn fits(&self, m: Seq<u8>) -> bool {
        le_nat(m) < ubig_value(self.prime)
    }

    open spec fn cipher_rel(&self, m: Seq<u8>, c: Seq<u8>) -> bool {
        exists|rv: nat|
            rv <= ubig_value(self.prime) - 2 && c == #[trigger] self.cipher_with(le_nat(m), rv)
    }

    fn encrypt(&self, bytes: &[u8]) -> (r: Result<Vec<u8>, Error>) {
        let one = big_from_u64(1);
        let span = big_sub(&self.prime, &one);
        let nonce = random_below(&span);
        self.encrypt_with_nonce(bytes, &nonce)
    }
}

impl PublicKey for ElGamalPublic {
    fn encrypt_chunked(&self, bytes: &[u8], chunk_size: usize) -> (r: Result<Vec<u8>, Error>) {
        chunked_encrypt(self, bytes, chunk_size)
    }
}

impl ElGamalPrivate {
    /// The key is usable when the modulus leaves room below it.
    pub open spec fn wf_spec(&self) -> bool {
        ubig_value(self.prime) >= 5
    }
}

/// The decrypted block for ciphertext pair `(c1, c2)` modulo `p` under
/// secret exponent `key`: `c2` times the `key`-th power of the inverse of
/// `c1`, canonically encoded.
pub open spec fn elgamal_plain(p: nat, key: nat, c1: nat, c2: nat, m: Seq<u8>) -> bool {
    exists|iv: nat|
        {
            &&& #[trigger] mul_mod(c1, iv, p) == 1nat % p
            &&& iv < p
            &&& m == le_min(((c2 * pow(iv as int, key)) % (p as int)) as nat)
        }
}

impl BlockDecrypt for ElGamalPrivate {
    open spec fn sk_wf(&self) -> bool {
        self.wf_spec()
    }

    open spec fn plain_rel(&self, c: Seq<u8>, m: Seq<u8>) -> bool {
        match unmarshal_spec(c) {
            Some(bs) => bs.len() == 2 && elgamal_plain(
                ubig_value(self.prime),
                ubig_value(self.key),
                le_nat(bs[0]),
                le_nat(bs[1]),
                m,
            ),
            None => false,
        }
    }

    open spec fn fail_rel(&self, c: Seq<u8>, e: Error) -> bool {
        match unmarshal_spec(c) {
            Some(bs) => (bs.len() != 2 && e == Error::IncorrectAlgorithm) || (bs.len() == 2 && e
                == Error::MathError && !invertible(le_nat(bs[0]), ubig_value(self.prime))),
            None => e == Error::IncorrectAlgorithm,
        }
    }

    #[verifier::rlimit(60)]
    #[verifier::spinoff_prover]
    fn decrypt(&self, message: &[u8]) -> (r: Result<Vec<u8>, Error>) {
        let blocks = match crate::codec::unmarshal_bytes(message) {
            Ok(bs) => bs,
            Err(e) => {
                return Err(e);
            },
        };
        if blocks.len() != 2 {
            return Err(Error::IncorrectAlgorithm);
        }
        let c1 = big_from_le(blocks[0].as_slice());
        let c2 = big_from_le(blocks[1].as_slice());
        proof {
            assert(blocks.deep_view()[0] == blocks@[0]@);
            assert(blocks.deep_view()[1] == blocks@[1]@);
        }
        let inv = match mod_inverse(&c1, &self.prime) {
            Ok(v) => v,
            Err(e) => {
                return Err(e);
            },
        };
        let s = pow_mod(&inv, &self.key, &self.prime);
        let m = mod_mul(&c2, &s, &self.prime);
        proof {
            vstd::arithmetic::div_mod::lemma_mul_mod_noop_right(
                ubig_value(c2) as int,
                pow(ubig_value(inv) as int, ubig_value(self.key)),
                ubig_value(self.prime) as int,
            );
            let pv = ubig_value(self.prime);
            let bsx = blocks.deep_view();
            assert(mul_mod(le_nat(bsx[0]), ubig_value(inv), pv) == 1nat % pv);
            assert(ubig_value(m) == ((le_nat(bsx[1]) * pow(
                ubig_value(inv) as int,
                ubig_value(self.key),
            )) % (pv as int)) as nat);
        }
        let res = big_to_le(&m);
        proof {
            let pv = ubig_value(self.prime);
            let bsx = blocks.deep_view();
            assert(bsx.len() == 2);
            assert(unmarshal_spec(message@) == Some(bsx));
            let iv = ubig_value(inv);
            assert(iv < pv);
            assert(res@ == le_min(((le_nat(bsx[1]) * pow(iv as int, ubig_value(self.key))) % (
            pv as int)) as nat));
            assert(elgamal_plain(pv, ubig_value(self.key), le_nat(bsx[0]), le_nat(bsx[1]), res@));
            assert(self.plain_rel(message@, res@));
        }
        Ok(res)
    }
}

impl PrivateKey for ElGamalPrivate {
    fn decrypt_chunked(&self, message: &[u8], chunk_size: usize) -> (r: Result<Vec<u8>, Error>) {
        chunked_decrypt(self, message, chunk_size)
    }
}

impl<H: Hasher> BlockSign<H> for ElGamalPrivate {
    open spec fn sig_wf(&self) -> bool {
        self.wf_spec()
    }

    open spec fn sig_fail(&self, e: Error) -> bool {
        e == Error::MathError
    }

    open spec fn sig_rel(&self, digest: Seq<u8>, sig: Seq<u8>) -> bool {
        let p = ubig_value(self.prime);
        let md = (p - 1) as nat;
        let hv = le_nat(digest) as int;
        let kv = ubig_value(self.key) as int;
        exists|rv: nat, iv: nat|
            {
                let sv = (pow(ubig_value(self.alpha) as int, rv) % (p as int)) as nat;
                &&& #[trigger] mul_mod(rv, iv, md) == 1nat % md
                &&& 2 <= rv < md
                &&& iv < md
                &&& sig == marshal_spec(
                    seq![
                        le_min(sv),
                        le_min((((hv - kv * sv) % (md as int)) * iv % (md as int)) as nat),
                    ],
                )
            }
    }

    fn sign(&self, data: &[u8], hashf: &H) -> (r: Result<Vec<u8>, Error>) {
        let one = big_from_u64(1);
        let two = big_from_u64(2);
        let modulo = big_sub(&self.prime, &one);
        let span = big_sub(&modulo, &two);
        let mut tries: u64 = 0;
        while tries < u64::MAX
            invariant
                self.wf_spec(),
                ubig_value(one) == 1,
                ubig_value(two) == 2,
                ubig_value(modulo) == ubig_value(self.prime) - 1,
                ubig_value(span) == ubig_value(self.prime) - 3,
            decreases u64::MAX - tries,
        {
            let draw = random_below(&span);
            let nonce = big_add(&draw, &two);
            if let Ok(nonce_inv) = mod_inverse(&nonce, &modulo) {
                let sigma = pow_mod(&self.alpha, &nonce, &self.prime);
                let digest = hashf.hash(data);
                let hv_big = big_from_le(digest.as_slice());
                let ks = big_mul(&self.key, &sigma);
                let diff = mod_sub(&hv_big, &ks, &modulo);
                let delta = mod_mul(&diff, &nonce_inv, &modulo);
                let sb = big_to_le(&sigma);
                let db = big_to_le(&delta);
                let mut parts: Vec<Vec<u8>> = Vec::new();
                parts.push(sb);
                parts.push(db);
                let out = crate::codec::marshal_bytes(&parts);
                proof {
                    let p = ubig_value(self.prime);
                    let md = (p - 1) as nat;
                    let hv = le_nat(hashf.hash_spec(data@)) as int;
                    let kv = ubig_value(self.key) as int;
                    let rv = ubig_value(nonce);
                    let iv = ubig_value(nonce_inv);
                    let sv = (pow(ubig_value(self.alpha) as int, rv) % (p as int)) as nat;
                    vstd::arithmetic::div_mod::lemma_mul_mod_noop_left(
                        hv - kv * sv,
                        iv as int,
                        md as int,
                    );
                    assert(ubig_value(delta) == (((hv - kv * sv) % (md as int)) * iv % (
                    md as int)) as nat);
                    assert(parts.deep_view() =~~= seq![
                        le_min(sv),
                        le_min((((hv - kv * sv) % (md as int)) * iv % (md as int)) as nat),
                    ]);
                    assert(mul_mod(rv, iv, md) == 1nat % md);
                }
                return Ok(out);
            }
            tries = tries + 1;
        }
        Err(Error::MathError)
    }
}

impl<H: Hasher> Signer<H> for ElGamalPrivate {
    fn sign_chunked(&self, data: &[u8], hashf: &H, chunk_size: usize) -> (r: Result<
        Vec<u8>,
        Error,
    >) {
        chunked_sign(self, data, hashf, chunk_size)
    }
}

impl<H: Hasher> BlockVerify<H> for ElGamalPublic {
    open spec fn ver_wf(&self) -> bool {
        self.wf_spec()
    }

    open spec fn verdict(&self, digest: Seq<u8>, sig: Seq<u8>) -> bool {
        match unmarshal_spec(sig) {
            Some(bs) => bs.len() == 2 && {
                let p = ubig_value(self.prime);
                let sv = le_nat(bs[0]);
                let dv = le_nat(bs[1]);
                mul_mod(
                    (pow(ubig_value(self.beta) as int, sv) % (p as int)) as nat,
                    (pow(sv as int, dv) % (p as int)) as nat,
                    p,
                ) == (pow(ubig_value(self.alpha) as int, le_nat(digest)) % (p as int)) as nat
            },
            None => false,
        }
    }

    open spec fn ver_fail(&self, sig: Seq<u8>, e: Error) -> bool {
        e == Error::IncorrectAlgorithm && (match unmarshal_spec(sig) {
            Some(bs) => bs.len() != 2,
            None => true,
        })
    }

    fn verify(&self, expected: &[u8], signed_data: &[u8], hashf: &H) -> (r: Result<bool, Error>) {
        let blocks = match crate::codec::unmarshal_bytes(signed_data) {
            Ok(bs) => bs,
            Err(e) => {
                return Err(e);
            },
        };
        if blocks.len() != 2 {
            return Err(Error::IncorrectAlgorithm);
        }
        let sigma = big_from_le(blocks[0].as_slice());
        let delta = big_from_le(blocks[1].as_slice());
        proof {
            assert(blocks.deep_view()[0] == blocks@[0]@);
            assert(blocks.deep_view()[1] == blocks@[1]@);
        }
        let bs_pow = pow_mod(&self.beta, &sigma, &self.prime);
        let sd_pow = pow_mod(&sigma, &delta, &self.prime);
        let lhs = mod_mul(&bs_pow, &sd_pow, &self.prime);
        let digest = hashf.hash(expected);
        let hv_big = big_from_le(digest.as_slice());
        let rhs = pow_mod(&self.alpha, &hv_big, &self.prime);
        Ok(big_eq(&lhs, &rhs))
    }
}

impl<H: Hasher> Verifier<H> for ElGamalPublic {
    fn verify_chunked(
        &self,
        expected: &[u8],
        signed_data: &[u8],
        hashf: &H,
        chunk_size: usize,
    ) -> (r: Result<bool, Error>) {
        chunked_verify(self, expected, signed_data, hashf, chunk_size)
    }
}


/// Round trip for one ElGamal block, at the level of the values the block
/// contracts speak of.  With `beta == alpha^key mod p`, a message `m < p`
/// encrypted under any nonce `rv` gives the pair `c1 == alpha^rv mod p` and
/// `c2 == m * beta^rv mod p`; whenever `iv` is a modular inverse of `c1`
/// (exactly the case in which decryption does not report `MathError`),
/// decryption's final product recovers `m` itself.  The first argument of
/// the outer `mul_mod` is `c2` as `encrypt_with_nonce` pins it, the second
/// is the power `pow_mod` gives the decryptor, and the result is reduced as
/// `decrypt` reduces it.
pub proof fn lemma_elgamal_round_trip(p: nat, alpha: nat, key: nat, m: nat, rv: nat, iv: nat)
    requires
        p >= 2,
        m < p,
        mul_mod((pow(alpha as int, rv) % (p as int)) as nat, iv, p) == 1nat % p,
    ensures
        mul_mod(
            ((m * pow((pow(alpha as int, key) % (p as int)) as int, rv)) % (p as int)) as nat,
            (pow(iv as int, key) % (p as int)) as nat,
            p,
        ) == m,
{
    let pi = p as int;
    let a = alpha as int;
    let ki = key;
    let c1 = pow(a, rv) % pi;
    let betav = pow(a, ki) % pi;
    vstd::arithmetic::div_mod::lemma_mod_bound(pow(a, rv), pi);
    vstd::arithmetic::div_mod::lemma_mod_bound(pow(a, ki), pi);
    // beta^rv is congruent to alpha^(key*rv)
    vstd::arithmetic::power::lemma_pow_mod_noop(pow(a, ki), rv, pi);
    vstd::arithmetic::power::lemma_pow_multiplies(a, ki, rv);
    assert(pow(betav, rv) % pi == pow(a, ki * rv) % pi);
    // c2 is congruent to m * alpha^(key*rv)
    let c2v = (m * pow(betav, rv)) % pi;
    vstd::arithmetic::div_mod::lemma_mul_mod_noop_right(m as int, pow(betav, rv), pi);
    vstd::arithmetic::div_mod::lemma_mul_mod_noop_right(m as int, pow(a, ki * rv), pi);
    assert(c2v == (m * pow(a, ki * rv)) % pi);
    // alpha^(key*rv) is congruent to c1^key
    vstd::arithmetic::power::lemma_pow_multiplies(a, rv, ki);
    vstd::arithmetic::power::lemma_pow_mod_noop(pow(a, rv), ki, pi);
    assert(ki * rv == rv * ki) by {
        vstd::arithmetic::mul::lemma_mul_is_commutative(ki as int, rv as int);
    }
    assert(pow(c1, ki) % pi == pow(a, ki * rv) % pi);
    // c1^key * iv^key is congruent to one
    vstd::arithmetic::power::lemma_pow_distributes(c1, iv as int, ki);
    vstd::arithmetic::power::lemma_pow_mod_noop(c1 * iv, ki, pi);
    assert((c1 * iv) % pi == 1int % pi);
    vstd::arithmetic::power::lemma_pow_mod_noop(1, ki, pi);
    vstd::arithmetic::power::lemma1_pow(ki);
    assert((pow(c1, ki) * pow(iv as int, ki)) % pi == 1int % pi) by {
        assert(pow(c1, ki) * pow(iv as int, ki) == pow(c1 * iv, ki));
        assert(pow(c1 * iv, ki) % pi == pow((c1 * iv) % pi, ki) % pi);
        assert(pow((c1 * iv) % pi, ki) % pi == pow(1int % pi, ki) % pi);
        assert(pow(1int % pi, ki) % pi == pow(1, ki) % pi);
    }
    // assemble: (c2 * iv^key) mod p == m
    let sp = (pow(iv as int, ki) % pi) as int;
    vstd::arithmetic::div_mod::lemma_mul_mod_noop_right(c2v, pow(iv as int, ki), pi);
    assert((c2v * sp) % pi == (c2v * pow(iv as int, ki)) % pi);
    vstd::arithmetic::div_mod::lemma_mul_mod_noop_left(m * pow(a, ki * rv), pow(iv as int, ki), pi);
    assert((c2v * pow(iv as int, ki)) % pi == ((m * pow(a, ki * rv)) * pow(iv as int, ki)) % pi);
    assert((m * pow(a, ki * rv)) * pow(iv as int, ki) == (m as int) * (pow(a, ki * rv) * pow(
        iv as int,
        ki,
    ))) by {
        vstd::arithmetic::mul::lemma_mul_is_associative(m as int, pow(a, ki * rv), pow(
            iv as int,
            ki,
        ));
    }
    vstd::arithmetic::div_mod::lemma_mul_mod_noop_right(m as int, pow(a, ki * rv) * pow(
        iv as int,
        ki,
    ), pi);
    assert((pow(a, ki * rv) * pow(iv as int, ki)) % pi == 1int % pi) by {
        vstd::arithmetic::div_mod::lemma_mul_mod_noop_left(pow(a, ki * rv), pow(iv as int, ki), pi);
        vstd::arithmetic::div_mod::lemma_mul_mod_noop_left(pow(c1, ki), pow(iv as int, ki), pi);
        assert((pow(a, ki * rv) * pow(iv as int, ki)) % pi == ((pow(a, ki * rv) % pi) * pow(
            iv as int,
            ki,
        )) % pi);
        assert(((pow(c1, ki) % pi) * pow(iv as int, ki)) % pi == (pow(c1, ki) * pow(iv as int, ki))
            % pi);
    }
    assert(((m as int) * (pow(a, ki * rv) * pow(iv as int, ki))) % pi == ((m as int) * (1int % pi))
        % pi);
    vstd::arithmetic::div_mod::lemma_mul_mod_noop_right(m as int, 1, pi);
    vstd::arithmetic::mul::lemma_mul_basics(m as int);
    vstd::arithmetic::div_mod::lemma_small_mod(m, p);
}

impl ElGamalKeyPair {
    /// A well-formed pair: a shared modulus of at least five, a group
    /// element of full order, and the public `beta` matching the secret key.
    pub open spec fn wf_spec(&self) -> bool {
        let p = ubig_value(self.public.prime);
        let av = ubig_value(self.public.alpha);
        let kv = ubig_value(self.private.key);
        &&& p >= 5
        &&& ubig_value(self.private.prime) == p
        &&& ubig_value(self.private.alpha) == av
        &&& 3 <= av <= p - 2
        &&& pow(av as int, (p - 1) as nat) % (p as int) == 1int % (p as int)
        &&& 1 <= kv < p - 1
        &&& ubig_value(self.public.beta) == (pow(av as int, kv) % (p as int)) as nat
    }

    /// The generated modulus has exactly the requested bit length.
    pub open spec fn sized_spec(&self, bits: nat) -> bool {
        pow2((bits - 1) as nat) <= ubig_value(self.public.prime) < pow2(bits)
    }

    /// Generates an ElGamal key pair: a probable prime modulus, an element
    /// whose order divides the group, and a random secret exponent.
    /// Reports `MathError` only if the element search exhausts its bound.
    /// At least three bits are required: the floor the candidate-drawing
    /// arithmetic of the prime generator needs.
    pub fn new(bit_length: usize, persistence: usize) -> (r: Result<Self, Error>)
        requires
            3 <= bit_length,
        ensures
            (match r {
                Ok(kp) => kp.wf_spec() && kp.sized_spec(bit_length as nat),
                Err(e) => e == Error::MathError,
            }),
    {
        let one = big_from_u64(1);
        let two = big_from_u64(2);
        let three = big_from_u64(3);
        let four = big_from_u64(4);
        let prime = gen_sized_prime(bit_length, persistence);
        proof {
            crate::rsa::lemma_prime_floor(bit_length);
            vstd::arithmetic::div_mod::lemma_mod_bound(
                ubig_value(prime) as int - 4,
                2,
            );
        }
        // the prime is odd and at least four, hence at least five
        let pm1 = big_sub(&prime, &one);
        let span = big_sub(&prime, &four);
        let mut tries: u64 = 0;
        while tries < u64::MAX
            invariant
                3 <= bit_length,
                ubig_value(one) == 1,
                ubig_value(two) == 2,
                ubig_value(three) == 3,
                ubig_value(prime) >= 5,
                pow2((bit_length - 1) as nat) <= ubig_value(prime) < pow2(bit_length as nat),
                ubig_value(pm1) == ubig_value(prime) - 1,
                ubig_value(span) == ubig_value(prime) - 4,
            decreases u64::MAX - tries,
        {
            let draw = random_below(&span);
            let alpha = big_add(&draw, &three);
            let e = pow_mod(&alpha, &pm1, &prime);
            if big_eq(&e, &one) {
                let kspan = big_sub(&prime, &two);
                let kdraw = random_below(&kspan);
                let key = big_add(&kdraw, &one);
                let beta = pow_mod(&alpha, &key, &prime);
                proof {
                    vstd::arithmetic::div_mod::lemma_small_mod(1, ubig_value(prime));
                }
                return Ok(
                    ElGamalKeyPair {
                        public: ElGamalPublic {
                            prime: big_clone(&prime),
                            alpha: big_clone(&alpha),
                            beta,
                        },
                        private: ElGamalPrivate { alpha, prime, key },
                    },
                );
            }
            tries = tries + 1;
        }
        Err(Error::MathError)
    }
}


/// Raising to an exponent only matters modulo the order: when `a^t == 1`
/// modulo `p`, exponents can be reduced modulo `t`.
proof fn lemma_pow_order_reduce(a: int, t: nat, x: nat, p: int)
    requires
        p >= 1,
        t >= 1,
        pow(a, t) % p == 1int % p,
    ensures
        pow(a, x) % p == pow(a, x % t) % p,
{
    let qq = x / t;
    let r = x % t;
    vstd::arithmetic::div_mod::lemma_fundamental_div_mod(x as int, t as int);
    assert(x == t * qq + r);
    vstd::arithmetic::power::lemma_pow_adds(a, (t * qq) as nat, r);
    assert(pow(a, x) == pow(a, (t * qq) as nat) * pow(a, r));
    vstd::arithmetic::power::lemma_pow_multiplies(a, t, qq);
    vstd::arithmetic::power::lemma_pow_mod_noop(pow(a, t), qq, p);
    vstd::arithmetic::power::lemma_pow_mod_noop(1, qq, p);
    vstd::arithmetic::power::lemma1_pow(qq);
    assert(pow(a, (t * qq) as nat) % p == 1int % p);
    vstd::arithmetic::div_mod::lemma_mul_mod_noop_left(pow(a, (t * qq) as nat), pow(a, r), p);
    vstd::arithmetic::div_mod::lemma_mul_mod_noop_left(1, pow(a, r), p);
    vstd::arithmetic::mul::lemma_mul_basics(pow(a, r));
    vstd::arithmetic::div_mod::lemma_mod_twice(pow(a, r), p);
}

/// The ElGamal verification equation holds of an honestly produced
/// signature: with `sv == a^rv mod p`, a nonce inverse `iv` modulo `p - 1`,
/// and `dv` built as the signer builds it, `beta^sv * sv^dv` equals `a^hv`
/// modulo `p`, using only that `a` has order dividing `p - 1`.
proof fn lemma_elgamal_verify_equation(
    p: int,
    a: int,
    k: nat,
    hv: nat,
    rv: nat,
    iv: nat,
    sv: nat,
    dv: nat,
)
    requires
        p >= 2,
        pow(a, (p - 1) as nat) % p == 1int % p,
        (rv * iv) as int % (p - 1) == 1int % (p - 1),
        sv == (pow(a, rv) % p) as nat,
        dv as int == (((hv - k * sv) % (p - 1)) * iv) % (p - 1),
    ensures
        ((pow((pow(a, k) % p) as int, sv) % p) * (pow(sv as int, dv) % p)) % p == pow(a, hv) % p,
{
    let md = p - 1;
    let kc = (k * sv) as int;
    let ri = rv as int;
    let ii = iv as int;
    let di = dv as int;
    // the first factor is a^(k*sv), the second a^(rv*dv), modulo p
    vstd::arithmetic::power::lemma_pow_mod_noop(pow(a, k), sv, p);
    vstd::arithmetic::power::lemma_pow_multiplies(a, k, sv);
    assert(pow((pow(a, k) % p) as int, sv) % p == pow(a, k * sv) % p);
    vstd::arithmetic::power::lemma_pow_mod_noop(pow(a, rv), dv, p);
    vstd::arithmetic::power::lemma_pow_multiplies(a, rv, dv);
    assert(pow(sv as int, dv) % p == pow(a, rv * dv) % p);
    // their product is a^(k*sv + rv*dv) modulo p
    vstd::arithmetic::div_mod::lemma_mul_mod_noop_general(pow(a, k * sv), pow(a, rv * dv), p);
    vstd::arithmetic::power::lemma_pow_adds(a, k * sv, rv * dv);
    assert(((pow(a, k * sv) % p) * (pow(a, rv * dv) % p)) % p == pow(a, k * sv + rv * dv) % p);
    // the exponent is congruent to the digest value modulo p - 1
    let w = (hv - kc) % md;
    assert((ri * di) % md == (hv - kc) % md) by {
        vstd::arithmetic::div_mod::lemma_mul_mod_noop_right(ri, w * ii, md);
        assert((ri * di) % md == (ri * (w * ii)) % md);
        assert(ri * (w * ii) == (ri * ii) * w) by (nonlinear_arith);
        vstd::arithmetic::div_mod::lemma_mul_mod_noop_left(ri * ii, w, md);
        vstd::arithmetic::div_mod::lemma_mul_mod_noop_left(1, w, md);
        vstd::arithmetic::mul::lemma_mul_basics(w);
        vstd::arithmetic::div_mod::lemma_mod_twice(w, md);
        vstd::arithmetic::div_mod::lemma_mod_twice(hv - kc, md);
    }
    assert((kc + ri * di) % md == hv as int % md) by {
        vstd::arithmetic::div_mod::lemma_add_mod_noop_right(kc, ri * di, md);
        vstd::arithmetic::div_mod::lemma_add_mod_noop_right(kc, hv - kc, md);
        assert((kc + (ri * di) % md) % md == (kc + (hv - kc) % md) % md);
    }
    // reduce both exponents by the order of a
    lemma_pow_order_reduce(a, md as nat, (k * sv + rv * dv) as nat, p);
    lemma_pow_order_reduce(a, md as nat, hv, p);
    assert(kc + ri * di == (k * sv + rv * dv) as int) by (nonlinear_arith)
        requires
            kc == (k * sv) as int && ri == rv as int && di == dv as int,
    ;
    assert((k * sv + rv * dv) as nat % (md as nat) == hv % (md as nat));
}

/// Soundness of the ElGamal signature scheme, with nothing assumed beyond
/// what key generation checks: if the public element satisfies
/// `alpha^(p-1) == 1 (mod p)` and `beta` matches the secret key, then any
/// signature `sign` relates to a digest is accepted by `verify`'s verdict.
pub proof fn lemma_elgamal_sign_verify(
    pk: ElGamalPublic,
    sk: ElGamalPrivate,
    digest: Seq<u8>,
    sig: Seq<u8>,
)
    requires
        ubig_value(sk.prime) == ubig_value(pk.prime),
        ubig_value(sk.alpha) == ubig_value(pk.alpha),
        ubig_value(pk.prime) >= 5,
        ubig_value(pk.prime) < pow256(u64::MAX as nat),
        pow(ubig_value(pk.alpha) as int, (ubig_value(pk.prime) - 1) as nat) % (ubig_value(
            pk.prime,
        ) as int) == 1int % (ubig_value(pk.prime) as int),
        ubig_value(pk.beta) == (pow(ubig_value(pk.alpha) as int, ubig_value(sk.key)) % (ubig_value(
            pk.prime,
        ) as int)) as nat,
        BlockSign::<crate::hash::DigestSum>::sig_rel(&sk, digest, sig),
    ensures
        BlockVerify::<crate::hash::DigestSum>::verdict(&pk, digest, sig),
{
    let p = ubig_value(pk.prime);
    let pi = p as int;
    let a = ubig_value(pk.alpha) as int;
    let k = ubig_value(sk.key);
    let md = (p - 1) as nat;
    let hv = le_nat(digest) as int;
    let (rv, iv) = choose|rv: nat, iv: nat|
        {
            let sv = (pow(a, rv) % pi) as nat;
            &&& #[trigger] mul_mod(rv, iv, md) == 1nat % md
            &&& 2 <= rv < md
            &&& iv < md
            &&& sig == marshal_spec(
                seq![
                    le_min(sv),
                    le_min((((hv - k * sv) % (md as int)) * iv % (md as int)) as nat),
                ],
            )
        };
    let sv = (pow(a, rv) % pi) as nat;
    let dv = ((((hv - k * sv) % (md as int)) * iv) % (md as int)) as nat;
    let blocks = seq![le_min(sv), le_min(dv)];
    assert(sig == marshal_spec(blocks));
    vstd::arithmetic::div_mod::lemma_mod_bound(pow(a, rv), pi);
    vstd::arithmetic::div_mod::lemma_mod_bound(((hv - k * sv) % (md as int)) * iv, md as int);
    assert forall|i: int| 0 <= i < blocks.len() implies #[trigger] blocks[i].len()
        <= u64::MAX by {
        lemma_le_min_len(sv, u64::MAX as nat);
        lemma_le_min_len(dv, u64::MAX as nat);
    }
    lemma_marshal_round_trip(blocks);
    lemma_le_min_value(sv);
    lemma_le_min_value(dv);
    lemma_elgamal_verify_equation(pi, a, k, le_nat(digest), rv, iv, sv, dv);
}


/// Round trip for one ElGamal block at the level of the block contracts:
/// the stream `cipher_with` pins for a message and a nonce stands in
/// `plain_rel` with the canonical encoding of the message value, whenever
/// `iv` inverts the stream's first component (exactly the case in which
/// decryption does not report `MathError`).
pub proof fn lemma_elgamal_block_round_trip(
    pk: ElGamalPublic,
    sk: ElGamalPrivate,
    m: Seq<u8>,
    rv: nat,
    iv: nat,
)
    requires
        ubig_value(sk.prime) == ubig_value(pk.prime),
        ubig_value(pk.prime) >= 5,
        ubig_value(pk.prime) < pow256(u64::MAX as nat),
        ubig_value(pk.beta) == (pow(ubig_value(pk.alpha) as int, ubig_value(sk.key)) % (ubig_value(
            pk.prime,
        ) as int)) as nat,
        le_nat(m) < ubig_value(pk.prime),
        iv < ubig_value(pk.prime),
        mul_mod(
            (pow(ubig_value(pk.alpha) as int, rv) % (ubig_value(pk.prime) as int)) as nat,
            iv,
            ubig_value(pk.prime),
        ) == 1nat % ubig_value(pk.prime),
    ensures
        sk.plain_rel(pk.cipher_with(le_nat(m), rv), le_min(le_nat(m))),
{
    let p = ubig_value(pk.prime);
    let pi = p as int;
    let a = ubig_value(pk.alpha) as int;
    let k = ubig_value(sk.key);
    let mv = le_nat(m);
    let c1v = (pow(a, rv) % pi) as nat;
    let c2v = ((mv * pow(ubig_value(pk.beta) as int, rv)) % pi) as nat;
    let blocks = seq![le_min(c1v), le_min(c2v)];
    vstd::arithmetic::div_mod::lemma_mod_bound(pow(a, rv), pi);
    vstd::arithmetic::div_mod::lemma_mod_bound(mv * pow(ubig_value(pk.beta) as int, rv), pi);
    assert forall|i: int| 0 <= i < blocks.len() implies #[trigger] blocks[i].len()
        <= u64::MAX by {
        lemma_le_min_len(c1v, u64::MAX as nat);
        lemma_le_min_len(c2v, u64::MAX as nat);
    }
    lemma_marshal_round_trip(blocks);
    lemma_le_min_value(c1v);
    lemma_le_min_value(c2v);
    // the decryption product recovers the message value
    lemma_elgamal_round_trip(p, ubig_value(pk.alpha), k, mv, rv, iv);
    assert(mul_mod(c2v, (pow(iv as int, k) % pi) as nat, p) == mv);
    // fold the reduced power back into the unreduced relation
    vstd::arithmetic::div_mod::lemma_mul_mod_noop_right(c2v as int, pow(iv as int, k), pi);
    assert(((c2v * pow(iv as int, k)) % pi) as nat == mv);
    assert(elgamal_plain(p, k, c1v, c2v, le_min(mv)));
    assert(sk.plain_rel(pk.cipher_with(mv, rv), le_min(mv)));
}

impl ElGamalKeyPair {
    /// The public half of the pair.
    pub fn public_key(&self) -> (r: &ElGamalPublic)
        ensures
            r == &self.public,
    {
        &self.public
    }

    /// The private half of the pair.
    pub fn private_key(&self) -> (r: &ElGamalPrivate)
        ensures
            r == &self.private,
    {
        &self.private
    }
}

impl BlockEncrypt for ElGamalKeyPair {
    open spec fn pk_wf(&self) -> bool {
        self.public.pk_wf()
    }

    open spec fn fits(&self, m: Seq<u8>) -> bool {
        self.public.fits(m)
    }

    open spec fn cipher_rel(&self, m: Seq<u8>, c: Seq<u8>) -> bool {
        self.public.cipher_rel(m, c)
    }

    fn encrypt(&self, bytes: &[u8]) -> (r: Result<Vec<u8>, Error>) {
        self.public.encrypt(bytes)
    }
}

impl PublicKey for ElGamalKeyPair {
    fn encrypt_chunked(&self, bytes: &[u8], chunk_size: usize) -> (r: Result<Vec<u8>, Error>) {
        chunked_encrypt(self, bytes, chunk_size)
    }
}

impl BlockDecrypt for ElGamalKeyPair {
    open spec fn sk_wf(&self) -> bool {
        self.private.sk_wf()
    }

    open spec fn plain_rel(&self, c: Seq<u8>, m: Seq<u8>) -> bool {
        self.private.plain_rel(c, m)
    }

    open spec fn fail_rel(&self, c: Seq<u8>, e: Error) -> bool {
        self.private.fail_rel(c, e)
    }

    fn decrypt(&self, message: &[u8]) -> (r: Result<Vec<u8>, Error>) {
        self.private.decrypt(message)
    }
}

impl PrivateKey for ElGamalKeyPair {
    fn decrypt_chunked(&self, message: &[u8], chunk_size: usize) -> (r: Result<Vec<u8>, Error>) {
        chunked_decrypt(self, message, chunk_size)
    }
}

impl<H: Hasher> BlockSign<H> for ElGamalKeyPair {
    open spec fn sig_wf(&self) -> bool {
        BlockSign::<H>::sig_wf(&self.private)
    }

    open spec fn sig_rel(&self, digest: Seq<u8>, sig: Seq<u8>) -> bool {
        BlockSign::<H>::sig_rel(&self.private, digest, sig)
    }

    open spec fn sig_fail(&self, e: Error) -> bool {
        BlockSign::<H>::sig_fail(&self.private, e)
    }

    fn sign(&self, data: &[u8], hashf: &H) -> (r: Result<Vec<u8>, Error>) {
        self.private.sign(data, hashf)
    }
}

impl<H: Hasher> Signer<H> for ElGamalKeyPair {
    fn sign_chunked(&self, data: &[u8], hashf: &H, chunk_size: usize) -> (r: Result<
        Vec<u8>,
        Error,
    >) {
        chunked_sign(self, data, hashf, chunk_size)
    }
}

impl<H: Hasher> BlockVerify<H> for ElGamalKeyPair {
    open spec fn ver_wf(&self) -> bool {
        BlockVerify::<H>::ver_wf(&self.public)
    }

    open spec fn verdict(&self, digest: Seq<u8>, sig: Seq<u8>) -> bool {
        BlockVerify::<H>::verdict(&self.public, digest, sig)
    }

    open spec fn ver_fail(&self, sig: Seq<u8>, e: Error) -> bool {
        BlockVerify::<H>::ver_fail(&self.public, sig, e)
    }

    fn verify(&self, expected: &[u8], signed_data: &[u8], hashf: &H) -> (r: Result<bool, Error>) {
        self.public.verify(expected, signed_data, hashf)
    }
}

impl<H: Hasher> Verifier<H> for ElGamalKeyPair {
    fn verify_chunked(
        &self,
        expected: &[u8],
        signed_data: &[u8],
        hashf: &H,
        chunk_size: usize,
    ) -> (r: Result<bool, Error>) {
        chunked_verify(self, expected, signed_data, hashf, chunk_size)
    }
}

} // verus!
