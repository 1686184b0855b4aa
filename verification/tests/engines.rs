use encipher::bigint::{big_from_u64, big_mul};
use encipher::elgamal::{ElGamalKeyPair, ElGamalPrivate, ElGamalPublic};
use encipher::hash::DigestSum;
use encipher::rabin::{RabinKeyPair, RabinPrivate, RabinPublic};
use encipher::result::Error;
use encipher::rsa::{RsaKeyPair, RsaPrivate, RsaPublic};
use encipher::{BlockDecrypt, BlockEncrypt, BlockSign, BlockVerify, PrivateKey, PublicKey, Signer, Verifier};

const MESSAGE: [u8; 445] = *b"Lorem ipsum dolor sit amet, consectetur adipiscing elit, sed do eiusmod tempor incididunt ut labore et dolore magna aliqua. Ut enim ad minim veniam, quis nostrud exercitation ullamco laboris nisi ut aliquip ex ea commodo consequat. Duis aute irure dolor in reprehenderit in voluptate velit esse cillum dolore eu fugiat nulla pariatur. Excepteur sint occaecat cupidatat non proident, sunt in culpa qui officia deserunt mollit anim id est laborum.";

#[test]
fn test_encrypt_decrypt() {
    let key = RsaKeyPair::new(128, 5).unwrap();

    let encrypted = key.encrypt_chunked(&MESSAGE, 8).unwrap();
    let decrypted = key.decrypt_chunked(&encrypted, 8).unwrap();
    assert_eq!(MESSAGE, decrypted.as_slice());
}

#[test]
fn test_sign_verify() {
    let key = RsaKeyPair::new(128, 5).unwrap();

    let signed = key.sign_chunked(&MESSAGE, &DigestSum, 16).unwrap();
    let verified = key.verify_chunked(&MESSAGE, &signed, &DigestSum, 16).unwrap();

    assert!(verified);
}

#[test]
fn tests_test_encrypt_decrypt() {
    let key = ElGamalKeyPair::new(128, 5).unwrap();

    let encrypted = key.public_key().encrypt_chunked(&MESSAGE, 8).unwrap();
    let decrypted = key.private_key().decrypt_chunked(&encrypted, 8).unwrap();
    assert_eq!(MESSAGE, decrypted.as_slice());
}

#[test]
fn rabin_encrypt_decrypt_chunked() {
    let key = RabinKeyPair::new(128, 5);

    let encrypted = key.encrypt_chunked(&MESSAGE, 8).unwrap();
    let decrypted = key.decrypt_chunked(&encrypted, 8).unwrap();
    assert_eq!(MESSAGE, decrypted.as_slice());
}

#[test]
fn rsa_single_block_round_trip() {
    let key = RsaKeyPair::new(64, 5).unwrap();
    let plain = b"block!";
    let c = key.public.encrypt(plain).unwrap();
    let m = key.private.decrypt(&c).unwrap();
    assert_eq!(m.as_slice(), plain);
}

#[test]
fn elgamal_single_block_round_trip() {
    let key = ElGamalKeyPair::new(64, 5).unwrap();
    let plain = b"block!";
    let c = key.public.encrypt(plain).unwrap();
    let m = key.private.decrypt(&c).unwrap();
    assert_eq!(m.as_slice(), plain);
}

#[test]
fn rabin_single_block_round_trip() {
    let key = RabinKeyPair::new(64, 5);
    let plain = b"block!";
    let c = key.public.encrypt(plain).unwrap();
    let m = key.private.decrypt(&c).unwrap();
    assert_eq!(m.as_slice(), plain);
}

#[test]
fn rabin_preserves_trailing_zero_bytes() {
    // the tag keeps the exact block, trailing zeros included
    let key = RabinKeyPair::new(64, 5);
    let plain = [7u8, 0, 0];
    let c = key.public.encrypt(&plain).unwrap();
    let m = key.private.decrypt(&c).unwrap();
    assert_eq!(m.as_slice(), &plain);
}

#[test]
fn small_key_on_message_at_modulus() {
    // the message value equals the modulus: rejected, never wrapped
    let key = RsaPublic { exponent: big_from_u64(65537), divisor: big_from_u64(100) };
    let r = key.encrypt(&[100]);
    assert_eq!(r.unwrap_err(), Error::SmallKey);
    // one bit longer than the modulus: rejected as well
    let r = key.encrypt(&[200]);
    assert_eq!(r.unwrap_err(), Error::SmallKey);
    // just below the modulus: accepted
    assert!(key.encrypt(&[99]).is_ok());
}

#[test]
fn small_key_for_every_engine() {
    let rsa = RsaKeyPair::new(16, 4).unwrap();
    // sixteen-bit factors make a modulus of at most 32 bits; five bytes overflow it
    let big_block = [255u8; 5];
    assert_eq!(rsa.encrypt(&big_block).unwrap_err(), Error::SmallKey);

    let elg = ElGamalKeyPair::new(16, 4).unwrap();
    let big_block = [255u8; 3];
    assert_eq!(elg.encrypt(&big_block).unwrap_err(), Error::SmallKey);

    let rabin = RabinKeyPair::new(16, 4);
    // the eight-byte tag pushes a four-byte block far over the 48-bit modulus
    let big_block = [255u8; 4];
    assert_eq!(rabin.encrypt(&big_block).unwrap_err(), Error::SmallKey);
}

#[test]
fn rabin_tampered_ciphertext_is_rejected() {
    let key = RabinKeyPair::new(64, 5);
    let plain = b"attack";
    let mut c = key.public.encrypt(plain).unwrap();
    let mid = c.len() / 2;
    c[mid] ^= 0x40;
    let r = key.private.decrypt(&c);
    match r {
        Ok(m) => assert_ne!(m.as_slice(), plain),
        Err(e) => assert!(e == Error::MessageNotFound || e == Error::MathError),
    }
}

#[test]
fn signature_rejects_other_message() {
    let key = RsaKeyPair::new(128, 5).unwrap();
    let signed = key.sign_chunked(&MESSAGE, &DigestSum, 16).unwrap();
    let mut other = MESSAGE;
    other[0] ^= 1;
    let verified = key.verify_chunked(&other, &signed, &DigestSum, 16).unwrap();
    assert!(!verified);
}

#[test]
fn elgamal_signature_round_trip() {
    let key = ElGamalKeyPair::new(128, 5).unwrap();
    let data = b"signed payload";
    let sig = key.private_key().sign(data, &DigestSum).unwrap();
    let ok = key.public_key().verify(data, &sig, &DigestSum).unwrap();
    assert!(ok);
    let ok = key.public_key().verify(b"other payload!", &sig, &DigestSum).unwrap();
    assert!(!ok);
}

#[test]
fn elgamal_chunked_signatures() {
    let key = ElGamalKeyPair::new(128, 5).unwrap();
    let sig = key.private_key().sign_chunked(&MESSAGE, &DigestSum, 16).unwrap();
    let ok = key
        .public_key()
        .verify_chunked(&MESSAGE, &sig, &DigestSum, 16)
        .unwrap();
    assert!(ok);
    let mut other = MESSAGE;
    other[444] ^= 2;
    let ok = key
        .public_key()
        .verify_chunked(&other, &sig, &DigestSum, 16)
        .unwrap();
    assert!(!ok);
}

#[test]
fn elgamal_decrypt_rejects_malformed_streams() {
    let key = ElGamalPrivate {
        alpha: big_from_u64(3),
        prime: big_from_u64(23),
        key: big_from_u64(5),
    };
    // not a marshalled stream at all
    assert_eq!(key.decrypt(&[1, 2, 3]).unwrap_err(), Error::IncorrectAlgorithm);
    // a stream with one block instead of two
    let one_block = encipher::codec::marshal_bytes(&vec![vec![9u8]]);
    assert_eq!(key.decrypt(&one_block).unwrap_err(), Error::IncorrectAlgorithm);
    // a first component with no inverse modulo the prime
    let zero_c1 = encipher::codec::marshal_bytes(&vec![vec![], vec![9u8]]);
    assert_eq!(key.decrypt(&zero_c1).unwrap_err(), Error::MathError);
}

#[test]
fn elgamal_explicit_nonce_is_deterministic() {
    let key = ElGamalKeyPair::new(64, 5).unwrap();
    let nonce = big_from_u64(12345);
    let c1 = key.public.encrypt_with_nonce(b"same", &nonce).unwrap();
    let c2 = key.public.encrypt_with_nonce(b"same", &nonce).unwrap();
    assert_eq!(c1, c2);
    let m = key.private.decrypt(&c1).unwrap();
    assert_eq!(m.as_slice(), b"same");
}

#[test]
fn rsa_known_key_exact_values() {
    // n = 11 * 13 = 143, e = 7, d = 103: 7 * 103 == 721 == 6 * 120 + 1
    let public = RsaPublic { exponent: big_from_u64(7), divisor: big_from_u64(143) };
    let private = RsaPrivate {
        exponent: big_from_u64(103),
        prime_1: big_from_u64(11),
        prime_2: big_from_u64(13),
    };
    // 9^7 mod 143 == 48
    let c = public.encrypt(&[9]).unwrap();
    assert_eq!(c, vec![48]);
    let m = private.decrypt(&c).unwrap();
    assert_eq!(m, vec![9]);
}

#[test]
fn elgamal_known_key_exact_values() {
    // p = 23, alpha = 5, key = 6, beta = 5^6 mod 23 == 8
    let public = ElGamalPublic {
        prime: big_from_u64(23),
        alpha: big_from_u64(5),
        beta: big_from_u64(8),
    };
    let private = ElGamalPrivate {
        alpha: big_from_u64(5),
        prime: big_from_u64(23),
        key: big_from_u64(6),
    };
    // with nonce 3: c1 = 5^3 mod 23 == 10, c2 = 7 * 8^3 mod 23 == 19
    let c = public.encrypt_with_nonce(&[7], &big_from_u64(3)).unwrap();
    let blocks = encipher::codec::unmarshal_bytes(&c).unwrap();
    assert_eq!(blocks, vec![vec![10u8], vec![19u8]]);
    let m = private.decrypt(&c).unwrap();
    assert_eq!(m, vec![7]);
}

#[test]
fn rabin_known_key_disambiguates() {
    // two Mersenne primes, both congruent to three modulo four
    let p = big_from_u64(2305843009213693951);
    let q = big_from_u64(524287);
    let n = big_mul(&p, &q);
    let public = RabinPublic { divisor: n };
    let private = RabinPrivate { prime_1: p, prime_2: q };
    let c = public.encrypt(b"ok").unwrap();
    let m = private.decrypt(&c).unwrap();
    assert_eq!(m, b"ok".to_vec());
}
