//! Tests of the crypto primitives: the AES-256-CBC round trip, the exact
//! ciphertext length, and the freshness of the aspect envelope's wrap key.

use pinoq::encryption::{decrypt, encrypt, random_key, Key, IV};
use pinoq::filefmt::Aspect;

#[test]
fn test_encrypt_decrypt_sanity() {
    let data = vec![1u8, 2, 3, 4];
    let key = Key(vec![1u8; 32]);
    let iv = IV::from_bytes("testpass".as_bytes());

    let encrypted = encrypt(&data, &key, &iv);
    assert_eq!(
        encrypted,
        vec![38, 18, 161, 119, 20, 132, 125, 92, 211, 96, 187, 79, 89, 52, 133, 49]
    );

    let decrypted = decrypt(&encrypted, &key, &iv).unwrap();
    assert_eq!(decrypted, data);
}

#[test]
fn test_encryption_length() {
    // encrypted length should be: ceil((n + 1) / 16) * 16
    let data = vec![6u8; 1020];
    let key = random_key();
    let iv = IV::from_bytes("testpass".as_bytes());

    let enc = encrypt(&data, &key, &iv);
    assert_eq!(enc.len(), 1024);
}

#[test]
fn encryption_length_edges() {
    let key = random_key();
    let iv = IV::from_bytes(b"seed");
    assert_eq!(encrypt(&[], &key, &iv).len(), 16);
    assert_eq!(encrypt(&[0u8; 15], &key, &iv).len(), 16);
    assert_eq!(encrypt(&[0u8; 16], &key, &iv).len(), 32);
}

#[test]
fn decrypt_rejects_garbage() {
    let key = Key(vec![7u8; 32]);
    let iv = IV::from_bytes(b"pw");
    // not a multiple of the cipher block size: decryption must fail loudly
    assert!(decrypt(&[1u8, 2, 3], &key, &iv).is_err());
}

#[test]
fn iv_from_bytes_pads_and_truncates() {
    let short = IV::from_bytes(b"ab");
    assert_eq!(short.0, vec![97, 98, 0, 0, 0, 0, 0, 0, 0, 0, 0, 0, 0, 0, 0, 0]);
    let long = IV::from_bytes(b"0123456789abcdefXYZ");
    assert_eq!(long.0, b"0123456789abcdef".to_vec());
}

#[test]
fn sealing_twice_differs() {
    // every persist draws a fresh wrap key, so two seals of one aspect give
    // two different envelopes
    let a = Aspect::new(64);
    let ea1 = a.to_encrypted_aspect(b"pw");
    let ea2 = a.to_encrypted_aspect(b"pw");
    assert_ne!(ea1.key.0, ea2.key.0);
    assert_ne!(ea1.encrypted_data, ea2.encrypted_data);
}
