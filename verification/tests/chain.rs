use coldhide::hide_data;
use coldhide::recover;
use coldhide::Error;
use coldhide::HiddenData;

#[test]
fn it_works() {
    let mut secret1: Vec<u8> = vec![0, 1, 2, 3];
    let mut secret2 = secret1.clone();
    let data1: Vec<u8> = vec![4, 5, 6, 6];
    let data2 = data1.clone();
    let hidden = hide_data(data1, &mut secret1, 1000).unwrap();
    let recovered = recover(hidden, &mut secret2).unwrap();
    assert_eq!(*recovered, *data2);
}

#[test]
fn concrete_scenario() {
    let mut secret: Vec<u8> = vec![0, 1, 2, 3];
    let hidden = hide_data(vec![4, 5, 6, 6], &mut secret, 2).unwrap();
    assert_eq!(hidden.blocks.len(), 4);

    let mut good: Vec<u8> = vec![0, 1, 2, 3];
    let recovered = recover(hidden.clone(), &mut good).unwrap();
    assert_eq!(recovered, vec![4, 5, 6, 6]);

    let mut bad: Vec<u8> = vec![9, 9, 9, 9];
    assert!(recover(hidden, &mut bad).is_err());
}

#[test]
fn wrong_secret_is_rejected_with_authentication_error() {
    let mut s1: Vec<u8> = b"correct horse".to_vec();
    let hidden = hide_data(b"payload".to_vec(), &mut s1, 3).unwrap();
    let mut s2: Vec<u8> = b"battery staple".to_vec();
    let res = recover(hidden, &mut s2);
    assert_eq!(res.unwrap_err(), Error::Authentication);
}

#[test]
fn round_trip_empty_payload() {
    let mut s1: Vec<u8> = vec![7; 8];
    let mut s2 = s1.clone();
    let hidden = hide_data(Vec::new(), &mut s1, 0).unwrap();
    assert_eq!(recover(hidden, &mut s2).unwrap(), Vec::<u8>::new());
}

#[test]
fn round_trip_empty_secret() {
    let mut s1: Vec<u8> = Vec::new();
    let mut s2 = s1.clone();
    let hidden = hide_data(vec![1, 2, 3], &mut s1, 1).unwrap();
    assert_eq!(recover(hidden, &mut s2).unwrap(), vec![1, 2, 3]);
}

#[test]
fn chain_length_is_rounds_plus_two() {
    for rounds in [0usize, 1, 3, 10] {
        let mut s: Vec<u8> = vec![1, 2];
        let hidden = hide_data(vec![9], &mut s, rounds).unwrap();
        assert_eq!(hidden.blocks.len(), rounds + 2);
    }
}

#[test]
fn salt_and_nonces_have_fixed_length() {
    let mut s: Vec<u8> = vec![5; 4];
    let hidden = hide_data(vec![1, 2, 3], &mut s, 2).unwrap();
    assert_eq!(hidden.salt.len(), 32);
    for block in &hidden.blocks {
        assert_eq!(block.nonce.len(), 32);
    }
}

#[test]
fn nonces_are_unique_within_a_chain() {
    let mut s: Vec<u8> = vec![1, 2, 3];
    let hidden = hide_data(vec![4, 5], &mut s, 60).unwrap();
    let nonces: Vec<&Vec<u8>> = hidden.blocks.iter().map(|b| &b.nonce).collect();
    for i in 0..nonces.len() {
        for j in 0..i {
            assert_ne!(nonces[i], nonces[j]);
        }
    }
}

#[test]
fn salts_are_fresh_per_call() {
    let mut s1: Vec<u8> = vec![1, 2, 3];
    let mut s2: Vec<u8> = vec![1, 2, 3];
    let h1 = hide_data(vec![4], &mut s1, 0).unwrap();
    let h2 = hide_data(vec![4], &mut s2, 0).unwrap();
    assert_ne!(h1.salt, h2.salt);
}

#[test]
fn ciphertext_is_not_the_payload() {
    let payload: Vec<u8> = b"sixteen byte msg".to_vec();
    let mut s: Vec<u8> = vec![1, 2, 3];
    let hidden = hide_data(payload.clone(), &mut s, 0).unwrap();
    let block0 = &hidden.blocks[0];
    assert_eq!(block0.ciphertext.len(), payload.len() + 16);
    assert_ne!(&block0.ciphertext[..payload.len()], &payload[..]);
}

#[test]
fn hide_erases_the_secret() {
    let mut s: Vec<u8> = b"a secret".to_vec();
    let _ = hide_data(vec![1], &mut s, 0).unwrap();
    assert_eq!(s, vec![0u8; 8]);
}

#[test]
fn recover_erases_the_secret() {
    let mut s1: Vec<u8> = b"a secret".to_vec();
    let hidden = hide_data(vec![1], &mut s1, 0).unwrap();
    let mut s2: Vec<u8> = b"a secret".to_vec();
    let _ = recover(hidden, &mut s2).unwrap();
    assert_eq!(s2, vec![0u8; 8]);
}

#[test]
fn tampered_ciphertext_is_detected_in_every_block() {
    let mut s: Vec<u8> = vec![0, 1, 2, 3];
    let hidden = hide_data(vec![4, 5, 6, 6], &mut s, 2).unwrap();
    for i in 0..hidden.blocks.len() {
        let last = hidden.blocks[i].ciphertext.len() - 1;
        for pos in [0, last] {
            let mut tampered = hidden.clone();
            tampered.blocks[i].ciphertext[pos] ^= 0x01;
            let mut s2: Vec<u8> = vec![0, 1, 2, 3];
            let res = recover(tampered, &mut s2);
            assert_eq!(res.unwrap_err(), Error::Authentication);
        }
    }
}

#[test]
fn tampered_nonce_is_detected_in_every_block() {
    let mut s: Vec<u8> = vec![0, 1, 2, 3];
    let hidden = hide_data(vec![4, 5, 6, 6], &mut s, 2).unwrap();
    for i in 0..hidden.blocks.len() {
        let mut tampered = hidden.clone();
        tampered.blocks[i].nonce[0] ^= 0x01;
        let mut s2: Vec<u8> = vec![0, 1, 2, 3];
        let res = recover(tampered, &mut s2);
        assert_eq!(res.unwrap_err(), Error::Authentication);
    }
}

#[test]
fn truncated_chain_is_rejected() {
    let mut s: Vec<u8> = vec![0, 1, 2, 3];
    let hidden = hide_data(vec![4, 5, 6], &mut s, 0).unwrap();
    let short = HiddenData { salt: hidden.salt.clone(), blocks: vec![hidden.blocks[0].clone()] };
    let mut s2: Vec<u8> = vec![0, 1, 2, 3];
    assert_eq!(recover(short, &mut s2).unwrap_err(), Error::Authentication);

    let empty = HiddenData { salt: hidden.salt.clone(), blocks: Vec::new() };
    let mut s3: Vec<u8> = vec![0, 1, 2, 3];
    assert_eq!(recover(empty, &mut s3).unwrap_err(), Error::Authentication);
}

#[test]
fn swapped_salt_is_rejected() {
    let mut s1: Vec<u8> = vec![0, 1, 2, 3];
    let hidden = hide_data(vec![4, 5, 6], &mut s1, 1).unwrap();
    let mut wrong_salt = hidden.clone();
    wrong_salt.salt[0] ^= 0xff;
    let mut s2: Vec<u8> = vec![0, 1, 2, 3];
    assert_eq!(recover(wrong_salt, &mut s2).unwrap_err(), Error::Authentication);
}
