use coldhide::derive_key;
use coldhide::wipe;

#[test]
fn same_secret_and_salt_give_the_same_key() {
    let salt: Vec<u8> = (0u8..32).collect();
    let mut s1: Vec<u8> = b"open sesame".to_vec();
    let mut s2: Vec<u8> = b"open sesame".to_vec();
    let k1 = derive_key(&mut s1, &salt).unwrap();
    let k2 = derive_key(&mut s2, &salt).unwrap();
    assert_eq!(k1, k2);
}

#[test]
fn different_salts_give_different_keys() {
    let salt1: Vec<u8> = vec![0; 32];
    let salt2: Vec<u8> = vec![1; 32];
    let mut s1: Vec<u8> = b"open sesame".to_vec();
    let mut s2: Vec<u8> = b"open sesame".to_vec();
    let k1 = derive_key(&mut s1, &salt1).unwrap();
    let k2 = derive_key(&mut s2, &salt2).unwrap();
    assert_ne!(k1, k2);
}

#[test]
fn derived_key_is_not_the_secret_and_not_zero() {
    let salt: Vec<u8> = vec![3; 32];
    let secret: Vec<u8> = (100u8..132).collect();
    let mut s = secret.clone();
    let key = derive_key(&mut s, &salt).unwrap();
    assert_eq!(key.len(), 32);
    assert_ne!(key, secret);
    assert_ne!(key, vec![0u8; 32]);
}

#[test]
fn derivation_erases_the_secret() {
    let salt: Vec<u8> = vec![0; 32];
    let mut s: Vec<u8> = b"to be erased".to_vec();
    let _ = derive_key(&mut s, &salt).unwrap();
    assert_eq!(s, vec![0u8; 12]);
}

#[test]
fn wipe_zeroes_and_keeps_length() {
    let mut buf: Vec<u8> = vec![1, 2, 3, 4, 5];
    wipe(&mut buf);
    assert_eq!(buf, vec![0, 0, 0, 0, 0]);

    let mut empty: Vec<u8> = Vec::new();
    wipe(&mut empty);
    assert!(empty.is_empty());
}
