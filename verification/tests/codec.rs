use coldhide::decode;
use coldhide::encode;
use coldhide::hide_data;
use coldhide::recover;
use coldhide::EncryptedBlock;
use coldhide::Error;
use coldhide::HiddenData;

#[test]
fn encode_layout_is_exact() {
    let hidden = HiddenData {
        salt: (0u8..32).collect(),
        blocks: vec![
            EncryptedBlock { nonce: vec![7; 32], ciphertext: vec![1, 2, 3] },
            EncryptedBlock { nonce: vec![9; 32], ciphertext: Vec::new() },
        ],
    };
    let bytes = encode(&hidden);

    let mut expected: Vec<u8> = (0u8..32).collect();
    expected.extend_from_slice(&2u64.to_le_bytes());
    expected.extend_from_slice(&[7; 32]);
    expected.extend_from_slice(&3u64.to_le_bytes());
    expected.extend_from_slice(&[1, 2, 3]);
    expected.extend_from_slice(&[9; 32]);
    expected.extend_from_slice(&0u64.to_le_bytes());
    assert_eq!(bytes, expected);
}

#[test]
fn decode_inverts_encode() {
    let hidden = HiddenData {
        salt: vec![5; 32],
        blocks: vec![
            EncryptedBlock { nonce: vec![1; 32], ciphertext: vec![10, 20, 30, 40] },
            EncryptedBlock { nonce: vec![2; 32], ciphertext: vec![50] },
            EncryptedBlock { nonce: vec![3; 32], ciphertext: Vec::new() },
        ],
    };
    let decoded = decode(&encode(&hidden)).unwrap();
    assert_eq!(decoded.salt, hidden.salt);
    assert_eq!(decoded.blocks.len(), hidden.blocks.len());
    for (a, b) in decoded.blocks.iter().zip(hidden.blocks.iter()) {
        assert_eq!(a.nonce, b.nonce);
        assert_eq!(a.ciphertext, b.ciphertext);
    }
}

#[test]
fn hidden_chain_survives_serialization() {
    let mut s1: Vec<u8> = vec![0, 1, 2, 3];
    let hidden = hide_data(vec![4, 5, 6, 6], &mut s1, 2).unwrap();
    let bytes = encode(&hidden);
    let revived = decode(&bytes).unwrap();
    let mut s2: Vec<u8> = vec![0, 1, 2, 3];
    assert_eq!(recover(revived, &mut s2).unwrap(), vec![4, 5, 6, 6]);
}

#[test]
fn malformed_bytes_are_rejected() {
    assert_eq!(decode(&Vec::new()).unwrap_err(), Error::Malformed);
    assert_eq!(decode(&vec![0u8; 39]).unwrap_err(), Error::Malformed);

    // A header that promises one block but carries no block bytes.
    let mut bytes = vec![0u8; 32];
    bytes.extend_from_slice(&1u64.to_le_bytes());
    assert_eq!(decode(&bytes).unwrap_err(), Error::Malformed);

    // A block whose ciphertext length field runs past the buffer.
    let mut bytes = vec![0u8; 32];
    bytes.extend_from_slice(&1u64.to_le_bytes());
    bytes.extend_from_slice(&[0; 32]);
    bytes.extend_from_slice(&100u64.to_le_bytes());
    bytes.extend_from_slice(&[1, 2, 3]);
    assert_eq!(decode(&bytes).unwrap_err(), Error::Malformed);

    // Trailing bytes after the last block.
    let hidden = HiddenData {
        salt: vec![5; 32],
        blocks: vec![EncryptedBlock { nonce: vec![1; 32], ciphertext: vec![9] }],
    };
    let mut bytes = encode(&hidden);
    bytes.push(0);
    assert_eq!(decode(&bytes).unwrap_err(), Error::Malformed);
}
