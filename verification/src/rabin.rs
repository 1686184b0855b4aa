//! The Rabin engine: keys from two primes congruent to three modulo four,
//! squaring encryption, and four-candidate decryption disambiguated by a
//! fixed tag.  Decryption is sound by construction: whatever comes back,
//! its tagged value squares to the ciphertext modulo the key.

use vstd::prelude::*;
use vstd::arithmetic::power2::pow2;
use crate::bigint::{
    ubig_value, ibig_value, big_from_u64, big_from_le, big_to_le, big_lt, big_eq, big_mul, big_add,
    big_div_rem, big_extended_gcd, ibig_mod_ubig,
};
use crate::codec::{le_nat, le_min, bytes_equal, lemma_le_min_value};
use crate::kernel::{
    mod_mul, mod_sub, mul_mod, square_root_mod, sqrt_exists, coprime, bezout_pair,
    lemma_common_divisor_not_coprime, is_probably_prime, draw_odd_candidate, big_pow2,
};
use crate::keypair::{
    BlockEncrypt, BlockDecrypt, PublicKey, PrivateKey, chunked_encrypt, chunked_decrypt,
};
use crate::result::Error;

verus! {

/// The tag appended to a message before squaring; it singles out the true
/// plaintext among the four decryption candidates.
pub open spec fn magic_spec() -> Seq<u8> {
    seq![0u8, 82u8, 65u8, 66u8, 73u8, 78u8, 0u8, 1u8]
}

/// The eight tag bytes as a vector.
pub fn magic_tag() -> (r: Vec<u8>)
    ensures
        r@ == magic_spec(),
{
    let mut v: Vec<u8> = Vec::new();
    v.push(0u8);
    v.push(82u8);
    v.push(65u8);
    v.push(66u8);
    v.push(73u8);
    v.push(78u8);
    v.push(0u8);
    v.push(1u8);
    proof {
        assert(v@ =~= magic_spec());
    }
    v
}

/// Splits off the trailing tag: `Some` exactly when the buffer ends with it.
fn strip_tag(b: &Vec<u8>) -> (r: Option<Vec<u8>>)
    ensures
        (match r {
            Some(out) => out@ + magic_spec() == b@,
            None => forall|out: Seq<u8>| #[trigger] (out + magic_spec()) != b@,
        }),
{
    if b.len() < 8 {
        proof {
            assert forall|out: Seq<u8>| #[trigger] (out + magic_spec()) != b@ by {
                assert((out + magic_spec()).len() == out.len() + 8);
            }
        }
        return None;
    }
    let tag = magic_tag();
    let suffix = vstd::slice::slice_subrange(b.as_slice(), b.len() - 8, b.len());
    if !bytes_equal(suffix, tag.as_slice()) {
        proof {
            assert forall|out: Seq<u8>| #[trigger] (out + magic_spec()) != b@ by {
                if out + magic_spec() == b@ {
                    assert(suffix@ =~= magic_spec());
                }
            }
        }
        return None;
    }
    let out = vstd::slice::slice_to_vec(
        vstd::slice::slice_subrange(b.as_slice(), 0, b.len() - 8),
    );
    proof {
        assert(out@ + magic_spec() =~= b@);
    }
    Some(out)
}

/// Public key for the Rabin cryptosystem.
pub struct RabinPublic {
    /// Public modulus used for encryption.
    pub divisor: ibig::UBig,
}

/// Private key for the Rabin cryptosystem.
pub struct RabinPrivate {
    /// First prime factor of the public modulus.
    pub prime_1: ibig::UBig,
    /// Second prime factor of the public modulus.
    pub prime_2: ibig::UBig,
}

/// A key pair for the Rabin cryptosystem.
pub struct RabinKeyPair {
    /// The public key for encryption.
    pub public: RabinPublic,
    /// The private key for decryption.
    pub private: RabinPrivate,
}

impl RabinPublic {
    /// The key is usable when its modulus is at least two.
    pub open spec fn wf_spec(&self) -> bool {
        ubig_value(self.divisor) >= 2
    }
}

impl BlockEncrypt for RabinPublic {
    open spec fn pk_wf(&self) -> bool {
        self.wf_spec()
    }

    open spec fn fits(&self, m: Seq<u8>) -> bool {
        le_nat(m + magic_spec()) < ubig_value(self.divisor)
    }

    open spec fn cipher_rel(&self, m: Seq<u8>, c: Seq<u8>) -> bool {
        c == le_min(
            mul_mod(le_nat(m + magic_spec()), le_nat(m + magic_spec()), ubig_value(self.divisor)),
        )
    }

    fn encrypt(&self, bytes: &[u8]) -> (r: Result<Vec<u8>, Error>) {
        let mut tagged = vstd::slice::slice_to_vec(bytes);
        let tag = magic_tag();
        tagged.extend_from_slice(tag.as_slice());
        proof {
            assert(tagged@ =~= bytes@ + magic_spec());
        }
        let m = big_from_le(tagged.as_slice());
        if !big_lt(&m, &self.divisor) {
            return Err(Error::SmallKey);
        }
        let c = mod_mul(&m, &m, &self.divisor);
        Ok(big_to_le(&c))
    }
}

impl PublicKey for RabinPublic {
    fn encrypt_chunked(&self, bytes: &[u8], chunk_size: usize) -> (r: Result<Vec<u8>, Error>) {
        chunked_encrypt(self, bytes, chunk_size)
    }
}

impl RabinPrivate {
    /// The key is usable when both factors are odd and at least three.
    pub open spec fn wf_spec(&self) -> bool {
        &&& ubig_value(self.prime_1) >= 3
        &&& ubig_value(self.prime_2) >= 3
        &&& ubig_value(self.prime_1) % 2 == 1
        &&& ubig_value(self.prime_2) % 2 == 1
    }
}

/// Squaring two values congruent modulo `n` gives congruent squares.
proof fn lemma_square_congruent(x: int, y: int, n: int)
    requires
        n >= 1,
        x % n == y % n,
    ensures
        (x * x) % n == (y * y) % n,
{
    vstd::arithmetic::div_mod::lemma_mul_mod_noop_general(x, x, n);
    vstd::arithmetic::div_mod::lemma_mul_mod_noop_general(y, y, n);
}

/// The square of anything congruent to the negation of `y` is congruent to
/// the square of `y`.
proof fn lemma_neg_square(x: int, y: int, n: int)
    requires
        n >= 1,
        x % n == (-y) % n,
    ensures
        (x * x) % n == (y * y) % n,
{
    lemma_square_congruent(x, -y, n);
    assert((-y) * (-y) == y * y) by (nonlinear_arith);
}

/// The Chinese-remainder combination: if `mp` and `mq` square to `c` modulo
/// `p` and `q`, and `u*p + v*q == 1`, then anything congruent to
/// `u*p*mq + v*q*mp` squares to `c` modulo `p*q`.
proof fn lemma_crt_square(p: int, q: int, u: int, v: int, mp: int, mq: int, c: int, x: int)
    requires
        p >= 1,
        q >= 1,
        u * p + v * q == 1,
        (mp * mp) % p == c % p,
        (mq * mq) % q == c % q,
        x % (p * q) == (u * p * mq + v * q * mp) % (p * q),
    ensures
        (x * x) % (p * q) == c % (p * q),
{
    let n = p * q;
    assert(p * q >= 1) by (nonlinear_arith)
        requires
            p >= 1 && q >= 1,
    ;
    let x0 = u * p * mq + v * q * mp;
    // x0 is congruent to mp modulo p and to mq modulo q
    assert(x0 - mp == p * (u * mq - u * mp)) by (nonlinear_arith)
        requires
            u * p + v * q == 1 && x0 == u * p * mq + v * q * mp,
    ;
    assert(x0 % p == mp % p) by {
        vstd::arithmetic::div_mod::lemma_mod_multiples_vanish(u * mq - u * mp, mp, p);
        assert(p * (u * mq - u * mp) + mp == x0);
    }
    assert(x0 - mq == q * (v * mp - v * mq)) by (nonlinear_arith)
        requires
            u * p + v * q == 1 && x0 == u * p * mq + v * q * mp,
    ;
    assert(x0 % q == mq % q) by {
        vstd::arithmetic::div_mod::lemma_mod_multiples_vanish(v * mp - v * mq, mq, q);
        assert(q * (v * mp - v * mq) + mq == x0);
    }
    // hence its square is congruent to c modulo p and modulo q
    lemma_square_congruent(x0, mp, p);
    lemma_square_congruent(x0, mq, q);
    let z = x0 * x0 - c;
    assert(z % p == 0) by {
        vstd::arithmetic::div_mod::lemma_sub_mod_noop(x0 * x0, c, p);
        vstd::arithmetic::div_mod::lemma_small_mod(0, p as nat);
    }
    assert(z % q == 0) by {
        vstd::arithmetic::div_mod::lemma_sub_mod_noop(x0 * x0, c, q);
        vstd::arithmetic::div_mod::lemma_small_mod(0, q as nat);
    }
    // a value divisible by p and by q is divisible by p*q
    let zp = z / p;
    let zq = z / q;
    assert(z == p * zp) by {
        vstd::arithmetic::div_mod::lemma_fundamental_div_mod(z, p);
    }
    assert(z == q * zq) by {
        vstd::arithmetic::div_mod::lemma_fundamental_div_mod(z, q);
    }
    assert(z == n * (zq * u + zp * v)) by (nonlinear_arith)
        requires
            u * p + v * q == 1 && z == p * zp && z == q * zq && n == p * q,
    ;
    assert(z % n == 0) by {
        vstd::arithmetic::div_mod::lemma_mod_multiples_basic(zq * u + zp * v, n);
        assert((zq * u + zp * v) * n == n * (zq * u + zp * v)) by (nonlinear_arith);
    }
    // so the square of x0, and of anything congruent to it, is c modulo n
    assert((x0 * x0) % n == c % n) by {
        vstd::arithmetic::div_mod::lemma_add_mod_noop_right(c, z, n);
        assert(c + z == x0 * x0);
        vstd::arithmetic::div_mod::lemma_mod_twice(c, n);
    }
    lemma_square_congruent(x, x0, n);
}

/// A square root of the ciphertext value whose canonical bytes do not end
/// with the tag: what the decryption scan rejects.
pub open spec fn untagged_root(x: nat, c: nat, n: nat) -> bool {
    &&& x < n
    &&& mul_mod(x, x, n) == c % n
    &&& forall|out: Seq<u8>| #[trigger] (out + magic_spec()) != le_min(x)
}

/// Bezout coefficients for the factors together with one square root of the
/// ciphertext value modulo each factor: the data the decryption combines.
pub open spec fn crt_inputs(u: int, v: int, mp: nat, mq: nat, c: nat, p: nat, q: nat) -> bool {
    &&& bezout_pair(u, v, p, q)
    &&& 1 <= mp < p
    &&& mul_mod(mp, mp, p) == c % p
    &&& 1 <= mq < q
    &&& mul_mod(mq, mq, q) == c % q
}

/// The positive Chinese-remainder combination, reduced modulo `p*q`.
pub open spec fn crt_pos(u: int, v: int, mp: nat, mq: nat, p: nat, q: nat) -> nat {
    ((u * p * mq + v * q * mp) % ((p * q) as int)) as nat
}

/// The negative Chinese-remainder combination, reduced modulo `p*q`.
pub open spec fn crt_neg(u: int, v: int, mp: nat, mq: nat, p: nat, q: nat) -> nat {
    ((u * p * mq - v * q * mp) % ((p * q) as int)) as nat
}

/// The mirror of a value modulo `n`.
pub open spec fn mirror_mod(x: nat, n: nat) -> nat {
    ((n as int - x as int) % (n as int)) as nat
}

/// The plaintext relation for Rabin: the message re-tagged and read as an
/// integer is below the modulus, squares to the ciphertext value, and is one
/// of the four Chinese-remainder candidates built from some Bezout pair for
/// the factors and per-factor square roots of the ciphertext.
pub open spec fn rabin_plain(p: nat, q: nat, c: Seq<u8>, m: Seq<u8>) -> bool {
    let n = p * q;
    let t = le_nat(m + magic_spec());
    &&& t < n
    &&& mul_mod(t, t, n) == le_nat(c) % n
    &&& (exists|u: int, v: int, mp: nat, mq: nat|
        #![trigger crt_inputs(u, v, mp, mq, le_nat(c), p, q)]
        {
            &&& crt_inputs(u, v, mp, mq, le_nat(c), p, q)
            &&& (t == crt_pos(u, v, mp, mq, p, q) || t == mirror_mod(
                crt_pos(u, v, mp, mq, p, q),
                n,
            ) || t == crt_neg(u, v, mp, mq, p, q) || t == mirror_mod(
                crt_neg(u, v, mp, mq, p, q),
                n,
            ))
        })
}

impl BlockDecrypt for RabinPrivate {
    open spec fn sk_wf(&self) -> bool {
        self.wf_spec()
    }

    open spec fn plain_rel(&self, c: Seq<u8>, m: Seq<u8>) -> bool {
        rabin_plain(ubig_value(self.prime_1), ubig_value(self.prime_2), c, m)
    }

    open spec fn fail_rel(&self, c: Seq<u8>, e: Error) -> bool {
        let p = ubig_value(self.prime_1);
        let q = ubig_value(self.prime_2);
        ||| (e == Error::MathError && (!coprime(p, q) || !sqrt_exists(le_nat(c), p)
            || !sqrt_exists(le_nat(c), q)))
        ||| (e == Error::MessageNotFound && coprime(p, q) && sqrt_exists(le_nat(c), p)
            && sqrt_exists(le_nat(c), q) && (exists|u: int, v: int, mp: nat, mq: nat|
            #![trigger crt_inputs(u, v, mp, mq, le_nat(c), p, q)]
            {
                &&& crt_inputs(u, v, mp, mq, le_nat(c), p, q)
                &&& untagged_root(crt_pos(u, v, mp, mq, p, q), le_nat(c), p * q)
                &&& untagged_root(mirror_mod(crt_pos(u, v, mp, mq, p, q), p * q), le_nat(c), p
                    * q)
                &&& untagged_root(crt_neg(u, v, mp, mq, p, q), le_nat(c), p * q)
                &&& untagged_root(mirror_mod(crt_neg(u, v, mp, mq, p, q), p * q), le_nat(c), p
                    * q)
            }))
    }

    fn decrypt(&self, message: &[u8]) -> (r: Result<Vec<u8>, Error>) {
        let ghost pv = ubig_value(self.prime_1) as int;
        let ghost qv = ubig_value(self.prime_2) as int;
        let n = big_mul(&self.prime_1, &self.prime_2);
        let ghost nv = ubig_value(n) as int;
        proof {
            assert(nv >= 9) by (nonlinear_arith)
                requires
                    pv >= 3 && qv >= 3 && nv == pv * qv,
            ;
        }
        let one = big_from_u64(1);
        let (g, u, v) = big_extended_gcd(&self.prime_1, &self.prime_2);
        if !big_eq(&g, &one) {
            proof {
                lemma_common_divisor_not_coprime(
                    ubig_value(self.prime_1),
                    ubig_value(self.prime_2),
                    ubig_value(g),
                );
            }
            return Err(Error::MathError);
        }
        let c = big_from_le(message);
        let ghost cv = ubig_value(c) as int;
        let mp = match square_root_mod(&c, &self.prime_1) {
            Some(rr) => rr.0,
            None => {
                proof {
                    assert(!sqrt_exists(le_nat(message@), ubig_value(self.prime_1)));
                }
                return Err(Error::MathError);
            },
        };
        let mq = match square_root_mod(&c, &self.prime_2) {
            Some(rr) => rr.0,
            None => {
                proof {
                    assert(!sqrt_exists(le_nat(message@), ubig_value(self.prime_2)));
                }
                return Err(Error::MathError);
            },
        };
        let ghost mpv = ubig_value(mp) as int;
        let ghost mqv = ubig_value(mq) as int;
        let ghost uv = ibig_value(u);
        let ghost vv = ibig_value(v);
        let ur = ibig_mod_ubig(&u, &n);
        let vr = ibig_mod_ubig(&v, &n);
        let up = mod_mul(&ur, &self.prime_1, &n);
        let t1 = mod_mul(&up, &mq, &n);
        let vq = mod_mul(&vr, &self.prime_2, &n);
        let t2 = mod_mul(&vq, &mp, &n);
        proof {
            lemma_chain_t(uv, pv, mqv, nv, ubig_value(ur) as int, ubig_value(up) as int,
                ubig_value(t1) as int);
            lemma_chain_t(vv, qv, mpv, nv, ubig_value(vr) as int, ubig_value(vq) as int,
                ubig_value(t2) as int);
        }
        let sum = big_add(&t1, &t2);
        let (_, m1) = big_div_rem(&sum, &n);
        let m2 = mod_sub(&n, &m1, &n);
        let m3 = mod_sub(&t1, &t2, &n);
        let m4 = mod_sub(&n, &m3, &n);
        proof {
            let t1f = uv * pv * mqv;
            let t2f = vv * qv * mpv;
            vstd::arithmetic::div_mod::lemma_mod_bound(t1f + t2f, nv);
            vstd::arithmetic::div_mod::lemma_mod_bound(cv, nv);
            // m1 is congruent to the positive combination
            vstd::arithmetic::div_mod::lemma_add_mod_noop(t1f, t2f, nv);
            vstd::arithmetic::div_mod::lemma_mod_twice(t1f + t2f, nv);
            assert(ubig_value(m1) as int == (t1f + t2f) % nv);
            assert(nv == pv * qv);
            assert(ubig_value(m1) as int % (pv * qv) == (uv * pv * mqv + vv * qv * mpv) % (pv
                * qv));
            lemma_crt_square(pv, qv, uv, vv, mpv, mqv, cv, ubig_value(m1) as int);
            // m2 is congruent to its negation
            lemma_mirror_mod(ubig_value(m2) as int, ubig_value(m1) as int, nv);
            lemma_neg_square(ubig_value(m2) as int, ubig_value(m1) as int, nv);
            // m3 is congruent to the negative combination
            vstd::arithmetic::div_mod::lemma_sub_mod_noop(t1f, t2f, nv);
            vstd::arithmetic::div_mod::lemma_mod_twice(t1f - t2f, nv);
            assert(ubig_value(m3) as int == (t1f - t2f) % nv);
            assert(t1f - t2f == uv * pv * mqv + vv * qv * (-mpv)) by (nonlinear_arith)
                requires
                    t1f == uv * pv * mqv && t2f == vv * qv * mpv,
            ;
            assert(((-mpv) * (-mpv)) % pv == cv % pv) by {
                assert((-mpv) * (-mpv) == mpv * mpv) by (nonlinear_arith);
            }
            assert(ubig_value(m3) as int % (pv * qv) == (uv * pv * mqv + vv * qv * (-mpv)) % (pv
                * qv));
            lemma_crt_square(pv, qv, uv, vv, -mpv, mqv, cv, ubig_value(m3) as int);
            lemma_mirror_mod(ubig_value(m4) as int, ubig_value(m3) as int, nv);
            lemma_neg_square(ubig_value(m4) as int, ubig_value(m3) as int, nv);
            // the four candidates are exactly the Chinese-remainder forms
            let pn = ubig_value(self.prime_1);
            let qn = ubig_value(self.prime_2);
            let cb = le_nat(message@);
            assert(bezout_pair(uv, vv, pn, qn));
            assert(crt_inputs(uv, vv, ubig_value(mp), ubig_value(mq), cb, pn, qn));
            assert(ubig_value(m1) == crt_pos(uv, vv, ubig_value(mp), ubig_value(mq), pn, qn));
            assert(ubig_value(m3) == crt_neg(uv, vv, ubig_value(mp), ubig_value(mq), pn, qn));
            assert(ubig_value(m2) == mirror_mod(ubig_value(m1), pn * qn));
            assert(ubig_value(m4) == mirror_mod(ubig_value(m3), pn * qn));
        }
        if let Some(out) = try_candidate(&m1, &c, &n) {
            return Ok(out);
        }
        if let Some(out) = try_candidate(&m2, &c, &n) {
            return Ok(out);
        }
        if let Some(out) = try_candidate(&m3, &c, &n) {
            return Ok(out);
        }
        if let Some(out) = try_candidate(&m4, &c, &n) {
            return Ok(out);
        }
        proof {
            let pn = ubig_value(self.prime_1);
            let qn = ubig_value(self.prime_2);
            assert(coprime(pn, qn));
            assert(sqrt_exists(le_nat(message@), pn));
            assert(sqrt_exists(le_nat(message@), qn));
            let cb = le_nat(message@);
            let nn = pn * qn;
            assert(untagged_root(ubig_value(m1), cb, nn));
            assert(untagged_root(ubig_value(m2), cb, nn));
            assert(untagged_root(ubig_value(m3), cb, nn));
            assert(untagged_root(ubig_value(m4), cb, nn));
        }
        Err(Error::MessageNotFound)
    }
}

/// Anything produced by the modular mirror `n - y mod n` is congruent to the
/// negation of `y`.
proof fn lemma_mirror_mod(x: int, y: int, n: int)
    requires
        n >= 1,
        x == (n - y) % n,
    ensures
        x % n == (-y) % n,
{
    vstd::arithmetic::div_mod::lemma_mod_add_multiples_vanish(-y, n);
    vstd::arithmetic::div_mod::lemma_mod_twice(n - y, n);
}

/// Reducing a triple product modulo `n` step by step agrees with reducing it
/// at once.
proof fn lemma_chain_t(a: int, b: int, d: int, n: int, ar: int, ab: int, t: int)
    requires
        n >= 1,
        ar == a % n,
        ab == (ar * b) % n,
        t == (ab * d) % n,
    ensures
        t == (a * b * d) % n,
{
    vstd::arithmetic::div_mod::lemma_mul_mod_noop_left(a, b, n);
    assert(ab == (a * b) % n);
    vstd::arithmetic::div_mod::lemma_mul_mod_noop_left(a * b, d, n);
}

/// Checks one decryption candidate: accepted when its bytes end with the
/// tag, in which case the detagged prefix is the plaintext and its tagged
/// value is the candidate itself; `None` proves the candidate is untagged.
fn try_candidate(cand: &ibig::UBig, c: &ibig::UBig, n: &ibig::UBig) -> (r: Option<Vec<u8>>)
    requires
        ubig_value(*cand) < ubig_value(*n),
        ubig_value(*n) >= 1,
        mul_mod(ubig_value(*cand), ubig_value(*cand), ubig_value(*n)) == ubig_value(*c)
            % ubig_value(*n),
    ensures
        (match r {
            Some(out) => {
                let t = le_nat(out@ + magic_spec());
                &&& t == ubig_value(*cand)
                &&& t < ubig_value(*n)
                &&& mul_mod(t, t, ubig_value(*n)) == ubig_value(*c) % ubig_value(*n)
            },
            None => forall|out: Seq<u8>| #[trigger] (out + magic_spec()) != le_min(
                ubig_value(*cand),
            ),
        }),
{
    let bytes = big_to_le(cand);
    match strip_tag(&bytes) {
        Some(out) => {
            proof {
                lemma_le_min_value(ubig_value(*cand));
                assert(le_nat(out@ + magic_spec()) == ubig_value(*cand));
            }
            Some(out)
        },
        None => None,
    }
}

impl PrivateKey for RabinPrivate {
    fn decrypt_chunked(&self, message: &[u8], chunk_size: usize) -> (r: Result<Vec<u8>, Error>) {
        chunked_decrypt(self, message, chunk_size)
    }
}

/// Draws one odd candidate of exactly `bit_length` bits congruent to three
/// modulo four.
fn draw_candidate_3mod4(lo: &ibig::UBig, bit_length: usize) -> (r: ibig::UBig)
    requires
        3 <= bit_length,
        ubig_value(*lo) == pow2((bit_length - 1) as nat),
    ensures
        pow2((bit_length - 1) as nat) <= ubig_value(r) < pow2(bit_length as nat),
        ubig_value(r) % 4 == 3,
{
    let cand = draw_odd_candidate(lo, bit_length);
    let two = big_from_u64(2);
    let four = big_from_u64(4);
    let (_, rem) = big_div_rem(&cand, &four);
    let three = big_from_u64(3);
    let ghost cv = ubig_value(cand) as int;
    proof {
        vstd::arithmetic::div_mod::lemma_mod_bound(cv, 4);
        vstd::arithmetic::div_mod::lemma_fundamental_div_mod(cv, 4);
        // an odd value is 1 or 3 modulo 4
        assert(cv % 2 == (cv % 4) % 2) by {
            vstd::arithmetic::div_mod::lemma_mod_multiples_vanish(2 * (cv / 4), cv % 4, 2);
            assert(2 * (2 * (cv / 4)) + cv % 4 == cv) by (nonlinear_arith)
                requires
                    cv == 4 * (cv / 4) + cv % 4,
            ;
        }
    }
    if big_eq(&rem, &three) {
        cand
    } else {
        proof {
            let top = pow2(bit_length as nat) as int;
            let h = pow2((bit_length - 1) as nat) as int;
            vstd::arithmetic::power2::lemma_pow2_adds((bit_length - 1) as nat, 1);
            vstd::arithmetic::power2::lemma2_to64();
            assert(top == 2 * h);
            // the top odd value is 3 modulo 4, so this candidate is below it
            assert((top - 1) % 4 == 3) by {
                vstd::arithmetic::power2::lemma_pow2_adds(2, (bit_length - 2) as nat);
                let h2 = pow2((bit_length - 2) as nat) as int;
                assert(top == 4 * h2);
                vstd::arithmetic::div_mod::lemma_mod_multiples_vanish(h2 - 1, 3, 4);
                assert(4 * (h2 - 1) + 3 == top - 1);
                vstd::arithmetic::div_mod::lemma_small_mod(3, 4);
            }
            assert(cv != top - 1);
            // the next value down is even, so this candidate is two below the top
            assert((top - 2) % 2 == 0) by {
                vstd::arithmetic::div_mod::lemma_mod_multiples_basic(h - 1, 2);
                assert((h - 1) * 2 == top - 2) by (nonlinear_arith)
                    requires
                        top == 2 * h,
                ;
            }
            assert(cv != top - 2);
            assert(cv + 2 < top);
            assert((cv + 2) % 4 == 3) by {
                vstd::arithmetic::div_mod::lemma_fundamental_div_mod(cv, 4);
                vstd::arithmetic::div_mod::lemma_mod_multiples_vanish(cv / 4, 3, 4);
                assert(4 * (cv / 4) + 3 == cv + 2);
                vstd::arithmetic::div_mod::lemma_small_mod(3, 4);
            }
        }
        big_add(&cand, &two)
    }
}

/// Draws probable primes of the given bit length until one congruent to
/// three modulo four passes the Miller-Rabin rounds.
fn gen_prime(bit_length: usize, persistence: usize) -> (r: ibig::UBig)
    requires
        3 <= bit_length,
    ensures
        pow2((bit_length - 1) as nat) <= ubig_value(r) < pow2(bit_length as nat),
        ubig_value(r) % 4 == 3,
{
    let lo = big_pow2(bit_length - 1);
    proof {
        vstd::arithmetic::power2::lemma_pow2_pos((bit_length - 1) as nat);
    }
    let mut tries: u64 = 0;
    loop
        invariant
            3 <= bit_length,
            ubig_value(lo) == pow2((bit_length - 1) as nat),
            tries < u64::MAX,
        decreases u64::MAX - tries,
    {
        let cand = draw_candidate_3mod4(&lo, bit_length);
        proof {
            lemma_3mod4_is_odd(ubig_value(cand));
            crate::rsa::lemma_prime_floor(bit_length);
        }
        if is_probably_prime(&cand, persistence) || tries >= u64::MAX - 1 {
            return cand;
        }
        tries = tries + 1;
    }
}

/// A value congruent to three modulo four is odd.
proof fn lemma_3mod4_is_odd(x: nat)
    requires
        x % 4 == 3,
    ensures
        x % 2 == 1,
{
    let xi = x as int;
    vstd::arithmetic::div_mod::lemma_fundamental_div_mod(xi, 4);
    vstd::arithmetic::div_mod::lemma_mod_multiples_vanish(2 * (xi / 4), 3, 2);
    assert(2 * (2 * (xi / 4)) + 3 == xi) by (nonlinear_arith)
        requires
            xi == 4 * (xi / 4) + 3,
    ;
    vstd::arithmetic::div_mod::lemma_small_mod(1, 2);
    assert(3int % 2 == 1) by {
        vstd::arithmetic::div_mod::lemma_mod_multiples_vanish(1, 1, 2);
    }
}

impl RabinKeyPair {
    /// A well-formed pair: both factors are odd primes congruent to three
    /// modulo four, and the public modulus is their product.
    pub open spec fn wf_spec(&self) -> bool {
        let p = ubig_value(self.private.prime_1);
        let q = ubig_value(self.private.prime_2);
        &&& p >= 3
        &&& q >= 3
        &&& p % 4 == 3
        &&& q % 4 == 3
        &&& ubig_value(self.public.divisor) == p * q
    }

    /// The generated prime factors have the requested bit length widened by
    /// eight bits.
    pub open spec fn sized_spec(&self, bits: nat) -> bool {
        let p = ubig_value(self.private.prime_1);
        let q = ubig_value(self.private.prime_2);
        &&& pow2((bits + 7) as nat) <= p < pow2((bits + 8) as nat)
        &&& pow2((bits + 7) as nat) <= q < pow2((bits + 8) as nat)
    }

    /// Generates a Rabin key pair: two probable primes congruent to three
    /// modulo four, of the requested bit length widened by eight bits.  At
    /// least three bits are required: the floor the candidate-drawing
    /// arithmetic of the prime generator needs.
    pub fn new(bit_length: usize, persistence: usize) -> (r: Self)
        requires
            3 <= bit_length <= usize::MAX - 8,
        ensures
            r.wf_spec(),
            r.sized_spec(bit_length as nat),
    {
        let bit_length = bit_length + 8;
        let p = gen_prime(bit_length, persistence);
        let q = gen_prime(bit_length, persistence);
        proof {
            crate::rsa::lemma_prime_floor(bit_length);
        }
        let n = big_mul(&p, &q);
        RabinKeyPair { public: RabinPublic { divisor: n }, private: RabinPrivate {
            prime_1: p,
            prime_2: q,
        } }
    }

    /// The public half of the pair.
    pub fn public_key(&self) -> (r: &RabinPublic)
        ensures
            r == &self.public,
    {
        &self.public
    }

    /// The private half of the pair.
    pub fn private_key(&self) -> (r: &RabinPrivate)
        ensures
            r == &self.private,
    {
        &self.private
    }
}

impl BlockEncrypt for RabinKeyPair {
    open spec fn pk_wf(&self) -> bool {
        self.public.pk_wf()
    }

    open spec fn fits(&self, m: Seq<u8>) -> bool {
        self.public.fits(m)
    }

    open spec fn cipher_rel(&self, m: Seq<u8>, c: Seq<u8>) -> bool {
        self.public.cipher_rel(m, c)
    }

    fn encrypt(&self, bytes: &[u8]) -> (r: Result<Vec<u8>, Error>) {
        self.public.encrypt(bytes)
    }
}

impl PublicKey for RabinKeyPair {
    fn encrypt_chunked(&self, bytes: &[u8], chunk_size: usize) -> (r: Result<Vec<u8>, Error>) {
        chunked_encrypt(self, bytes, chunk_size)
    }
}

impl BlockDecrypt for RabinKeyPair {
    open spec fn sk_wf(&self) -> bool {
        self.private.sk_wf()
    }

    open spec fn plain_rel(&self, c: Seq<u8>, m: Seq<u8>) -> bool {
        self.private.plain_rel(c, m)
    }

    open spec fn fail_rel(&self, c: Seq<u8>, e: Error) -> bool {
        self.private.fail_rel(c, e)
    }

    fn decrypt(&self, message: &[u8]) -> (r: Result<Vec<u8>, Error>) {
        self.private.decrypt(message)
    }
}

impl PrivateKey for RabinKeyPair {
    fn decrypt_chunked(&self, message: &[u8], chunk_size: usize) -> (r: Result<Vec<u8>, Error>) {
        chunked_decrypt(self, message, chunk_size)
    }
}

} // verus!
