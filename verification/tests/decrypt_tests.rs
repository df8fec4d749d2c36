use crypto_secretbox::aead::{Aead, KeyInit};
use crypto_secretbox::XSalsa20Poly1305;
use flumeview_sql::boxes::{try_decrypt, SecretKey};

fn key_bytes(fill: u8) -> Vec<u8> {
    vec![fill; 32]
}

fn seal(key_fill: u8, nonce_fill: u8, plaintext: &[u8]) -> Vec<u8> {
    let key = key_bytes(key_fill);
    let cipher = XSalsa20Poly1305::new_from_slice(&key).unwrap();
    let nonce = [nonce_fill; 24];
    let ct = cipher.encrypt((&nonce).into(), plaintext).unwrap();
    let mut payload = nonce.to_vec();
    payload.extend_from_slice(&ct);
    payload
}

#[test]
fn empty_key_set_passes_payload_through_unchanged() {
    let payload = b"not actually encrypted".to_vec();
    let (out, decrypted) = try_decrypt(&Vec::new(), payload.clone());
    assert_eq!(out, payload);
    assert!(!decrypted);
}

#[test]
fn wrong_keys_pass_payload_through_unchanged() {
    let payload = seal(7, 1, b"secret words");
    let keys = vec![
        SecretKey::new(key_bytes(1)).unwrap(),
        SecretKey::new(key_bytes(2)).unwrap(),
    ];
    let (out, decrypted) = try_decrypt(&keys, payload.clone());
    assert_eq!(out, payload);
    assert!(!decrypted);
}

#[test]
fn correct_key_recovers_plaintext_regardless_of_position() {
    let payload = seal(7, 1, b"secret words");
    for position in 0..3 {
        let mut keys = vec![
            SecretKey::new(key_bytes(1)).unwrap(),
            SecretKey::new(key_bytes(2)).unwrap(),
        ];
        keys.insert(position, SecretKey::new(key_bytes(7)).unwrap());
        let (out, decrypted) = try_decrypt(&keys, payload.clone());
        assert_eq!(out, b"secret words".to_vec());
        assert!(decrypted);
    }
}

#[test]
fn short_payload_is_passed_through() {
    let payload = vec![1, 2, 3];
    let keys = vec![SecretKey::new(key_bytes(7)).unwrap()];
    let (out, decrypted) = try_decrypt(&keys, payload.clone());
    assert_eq!(out, payload);
    assert!(!decrypted);
}

#[test]
fn key_length_is_enforced() {
    assert!(SecretKey::new(vec![0; 31]).is_none());
    assert!(SecretKey::new(vec![0; 33]).is_none());
    assert!(SecretKey::new(vec![0; 32]).is_some());
}
