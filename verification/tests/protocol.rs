use a1_switch::protocol::{
    decode, encode_hello, encode_lsa, ControlMessage, Hello, Lsa, MAX_LIST_ITEMS, TYPE_LSA,
};

#[test]
fn hello_round_trip() {
    let encoded = encode_hello(42, 99);
    assert_eq!(
        decode(&encoded),
        Some(ControlMessage::Hello(Hello {
            sender: 42,
            sequence: 99,
        }))
    );
}

#[test]
fn lsa_round_trip_is_canonical() {
    let lsa = Lsa::new(7, 11, vec![9, 2, 9, 7], vec![0x0a00_0201, 3, 3]);
    let encoded = encode_lsa(&lsa).expect("bounded LSA");
    assert_eq!(decode(&encoded), Some(ControlMessage::Lsa(lsa.clone())));
    assert_eq!(lsa.neighbors, vec![2, 9]);
    assert_eq!(lsa.customers, vec![3, 0x0a00_0201]);
}

#[test]
fn malformed_messages_are_rejected() {
    let valid = encode_hello(1, 2);
    for length in 0..valid.len() {
        assert_eq!(decode(&valid[..length]), None, "accepted length {length}");
    }
    let mut wrong_magic = valid.clone();
    wrong_magic[0] ^= 1;
    assert_eq!(decode(&wrong_magic), None);

    let mut wrong_version = valid.clone();
    wrong_version[4] = 99;
    assert_eq!(decode(&wrong_version), None);

    let mut trailing = valid;
    trailing.push(0);
    assert_eq!(decode(&trailing), None);
}

fn lsa_header() -> Vec<u8> {
    vec![0x4e, 0x41, 0x31, 0x21, 1, TYPE_LSA]
}

#[test]
fn oversized_declared_list_is_rejected_before_allocation() {
    let mut bytes = lsa_header();
    bytes.extend_from_slice(&1u32.to_le_bytes());
    bytes.extend_from_slice(&1u64.to_le_bytes());
    bytes.extend_from_slice(&u16::MAX.to_le_bytes());
    assert_eq!(decode(&bytes), None);
}

#[test]
fn hello_encoding_is_little_endian() {
    let encoded = encode_hello(0x0403_0201, 0x0c0b_0a09_0807_0605);
    assert_eq!(
        encoded,
        vec![
            0x4e, 0x41, 0x31, 0x21, 1, 1, 0x01, 0x02, 0x03, 0x04, 0x05, 0x06, 0x07, 0x08, 0x09,
            0x0a, 0x0b, 0x0c
        ]
    );
}

#[test]
fn lsa_encoding_layout() {
    let lsa = Lsa::new(5, 6, vec![8], vec![0x0a00_0001, 0x0a00_0002]);
    let encoded = encode_lsa(&lsa).unwrap();
    let mut expected = lsa_header();
    expected.extend_from_slice(&5u32.to_le_bytes());
    expected.extend_from_slice(&6u64.to_le_bytes());
    expected.extend_from_slice(&1u16.to_le_bytes());
    expected.extend_from_slice(&8u32.to_le_bytes());
    expected.extend_from_slice(&2u16.to_le_bytes());
    expected.extend_from_slice(&0x0a00_0001u32.to_le_bytes());
    expected.extend_from_slice(&0x0a00_0002u32.to_le_bytes());
    assert_eq!(encoded, expected);
    assert_eq!(encoded.len(), 22 + 4 + 8);
}

#[test]
fn too_many_list_items_cannot_be_encoded() {
    let many: Vec<u32> = (1..=(MAX_LIST_ITEMS as u32 + 1)).collect();
    let lsa = Lsa::new(0, 1, many.clone(), vec![]);
    assert_eq!(lsa.neighbors.len(), MAX_LIST_ITEMS + 1);
    assert_eq!(encode_lsa(&lsa), None);
    let lsa = Lsa::new(0, 1, vec![], many);
    assert_eq!(encode_lsa(&lsa), None);
    let exactly: Vec<u32> = (1..=(MAX_LIST_ITEMS as u32)).collect();
    let lsa = Lsa::new(0, 1, exactly.clone(), exactly);
    let encoded = encode_lsa(&lsa).unwrap();
    assert_eq!(decode(&encoded), Some(ControlMessage::Lsa(lsa)));
}

#[test]
fn unknown_type_is_rejected() {
    let mut bytes = encode_hello(3, 4);
    bytes[5] = 3;
    assert_eq!(decode(&bytes), None);
}

#[test]
fn decoded_lsa_is_canonicalised() {
    let mut bytes = lsa_header();
    bytes.extend_from_slice(&4u32.to_le_bytes());
    bytes.extend_from_slice(&9u64.to_le_bytes());
    bytes.extend_from_slice(&3u16.to_le_bytes());
    for id in [6u32, 4, 2] {
        bytes.extend_from_slice(&id.to_le_bytes());
    }
    bytes.extend_from_slice(&2u16.to_le_bytes());
    for id in [7u32, 7] {
        bytes.extend_from_slice(&id.to_le_bytes());
    }
    assert_eq!(
        decode(&bytes),
        Some(ControlMessage::Lsa(Lsa {
            origin: 4,
            sequence: 9,
            neighbors: vec![2, 6],
            customers: vec![7],
        }))
    );
}

#[test]
fn truncated_lsa_is_rejected() {
    let lsa = Lsa::new(1, 2, vec![3, 4], vec![5]);
    let encoded = encode_lsa(&lsa).unwrap();
    for length in 0..encoded.len() {
        assert_eq!(decode(&encoded[..length]), None);
    }
    let mut longer = encoded.clone();
    longer.extend_from_slice(&[0, 0, 0, 0]);
    assert_eq!(decode(&longer), None);
}

#[test]
fn lsa_new_drops_origin_and_duplicates() {
    let lsa = Lsa::new(3, 1, vec![3, 3, 1, 2, 1], vec![]);
    assert_eq!(lsa.neighbors, vec![1, 2]);
    assert!(lsa.customers.is_empty());
    assert_eq!(lsa.origin, 3);
    assert_eq!(lsa.sequence, 1);
}

#[test]
fn accepted_lsa_is_the_encoding_of_its_raw_lists() {
    let mut bytes = vec![0x4e, 0x41, 0x31, 0x21, 1, TYPE_LSA];
    bytes.extend_from_slice(&7u32.to_le_bytes());
    bytes.extend_from_slice(&3u64.to_le_bytes());
    bytes.extend_from_slice(&3u16.to_le_bytes());
    for id in [9u32, 7, 9] {
        bytes.extend_from_slice(&id.to_le_bytes());
    }
    bytes.extend_from_slice(&1u16.to_le_bytes());
    bytes.extend_from_slice(&4u32.to_le_bytes());

    let decoded = decode(&bytes);
    let expected = Lsa::new(7, 3, vec![9], vec![4]);
    assert_eq!(decoded, Some(ControlMessage::Lsa(expected.clone())));
    let raw = Lsa {
        origin: 7,
        sequence: 3,
        neighbors: vec![9, 7, 9],
        customers: vec![4],
    };
    assert_eq!(encode_lsa(&raw), Some(bytes));
    assert!(encode_lsa(&expected).is_some());
}
