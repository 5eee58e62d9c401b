//! The cipher: nonce derivation and AES-256-GCM round trips.

use thunderstorm::cipher::{make_nonce, Cipher};

fn test_key() -> Vec<u8> {
    (0u8..32).collect()
}

#[test]
fn nonce_is_zero_padded_big_endian_index() {
    let n = make_nonce(0x0102030405060708);
    assert_eq!(n, vec![0, 0, 0, 0, 1, 2, 3, 4, 5, 6, 7, 8]);
    let zero = make_nonce(0);
    assert_eq!(zero, vec![0u8; 12]);
    assert_eq!(make_nonce(1)[11], 1);
}

#[test]
fn cipher_round_trip() {
    let cipher = Cipher::new(&test_key());
    let plain: Vec<u8> = (0..100_000u32).map(|i| (i * 31 + 7) as u8).collect();
    let sealed = cipher.encrypt(plain.clone(), 42);
    assert_eq!(sealed.len(), plain.len() + 16);
    assert_ne!(&sealed[..plain.len()], &plain[..]);
    let opened = cipher.decrypt(sealed, 42).expect("authentic ciphertext");
    assert_eq!(opened, plain);
}

#[test]
fn decrypt_with_wrong_index_fails() {
    let cipher = Cipher::new(&test_key());
    let plain = vec![5u8; 1024];
    let sealed = cipher.encrypt(plain, 7);
    assert!(cipher.decrypt(sealed, 8).is_err());
}

#[test]
fn decrypt_with_wrong_key_fails() {
    let cipher = Cipher::new(&test_key());
    let sealed = cipher.encrypt(vec![1u8; 64], 0);
    let mut other_key = test_key();
    other_key[0] ^= 0xff;
    let other = Cipher::new(&other_key);
    assert!(other.decrypt(sealed, 0).is_err());
}

#[test]
fn corrupted_ciphertext_fails() {
    let cipher = Cipher::new(&test_key());
    let mut sealed = cipher.encrypt(vec![9u8; 256], 3);
    sealed[10] ^= 1;
    assert!(cipher.decrypt(sealed, 3).is_err());
}

#[test]
fn empty_buffer_round_trip() {
    // The trailing buffer of a file may be at an empty-length boundary.
    let cipher = Cipher::new(&test_key());
    let sealed = cipher.encrypt(Vec::new(), 0);
    assert_eq!(sealed.len(), 16);
    let opened = cipher.decrypt(sealed, 0).expect("authentic ciphertext");
    assert!(opened.is_empty());
}
