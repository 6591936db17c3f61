use belka_chain::protocol::{check_wf, decode, encode, try_encode, DecodeError, Message,
    MAX_ENCODED_LEN};

fn sample_messages() -> Vec<Message> {
    vec![
        Message::Handshake { node_id: b"node-8080".to_vec(), version: 1, chain_height: 42 },
        Message::GetBlocks { from_height: 10, to_height: 20 },
        Message::Blocks { blocks: vec![vec![1, 2, 3], vec![], vec![0xff; 40]] },
        Message::GetTransactions,
        Message::Transactions { transactions: vec![vec![9, 9], vec![7]] },
        Message::NewBlock { block: vec![5; 100] },
        Message::NewTransaction { transaction: vec![] },
        Message::Ping,
        Message::Pong,
    ]
}

#[test]
fn round_trip_every_variant() {
    for m in sample_messages() {
        let bytes = encode(&m);
        let back = decode(&bytes).expect("well-formed message must decode");
        assert_eq!(back, m);
    }
}

#[test]
fn ping_and_pong_encode_to_one_tag_byte() {
    assert_eq!(encode(&Message::Ping), vec![7]);
    assert_eq!(encode(&Message::Pong), vec![8]);
    assert_eq!(encode(&Message::GetTransactions), vec![3]);
}

#[test]
fn get_blocks_encodes_big_endian_heights() {
    let bytes = encode(&Message::GetBlocks { from_height: 1, to_height: 0x0102030405060708 });
    let expected = vec![
        1, // tag
        0, 0, 0, 0, 0, 0, 0, 1, // from_height
        1, 2, 3, 4, 5, 6, 7, 8, // to_height
    ];
    assert_eq!(bytes, expected);
}

#[test]
fn handshake_encodes_blob_then_version_then_height() {
    let m = Message::Handshake { node_id: vec![0xaa, 0xbb], version: 3, chain_height: 5 };
    let expected = vec![
        0, // tag
        0, 0, 0, 2, 0xaa, 0xbb, // node_id as length-prefixed blob
        0, 0, 0, 3, // version
        0, 0, 0, 0, 0, 0, 0, 5, // chain_height
    ];
    assert_eq!(encode(&m), expected);
}

#[test]
fn blocks_encodes_count_then_blobs() {
    let m = Message::Blocks { blocks: vec![vec![1], vec![2, 3]] };
    let expected = vec![
        2, // tag
        0, 0, 0, 2, // count
        0, 0, 0, 1, 1, // first blob
        0, 0, 0, 2, 2, 3, // second blob
    ];
    assert_eq!(encode(&m), expected);
}

#[test]
fn empty_input_is_malformed() {
    assert_eq!(decode(&[]), Err(DecodeError::Malformed));
}

#[test]
fn unknown_tag_is_reported() {
    assert_eq!(decode(&[9]), Err(DecodeError::UnknownTag));
    assert_eq!(decode(&[200, 1, 2, 3]), Err(DecodeError::UnknownTag));
}

#[test]
fn truncated_fields_are_malformed() {
    // Handshake whose node_id blob promises more bytes than follow.
    assert_eq!(decode(&[0, 0, 0, 0, 9, 1, 2]), Err(DecodeError::Malformed));
    // GetBlocks cut in the middle of a height.
    assert_eq!(decode(&[1, 0, 0, 0]), Err(DecodeError::Malformed));
}

#[test]
fn trailing_bytes_are_malformed() {
    assert_eq!(decode(&[7, 0]), Err(DecodeError::Malformed));
    let mut bytes = encode(&Message::GetBlocks { from_height: 1, to_height: 2 });
    bytes.push(0);
    assert_eq!(decode(&bytes), Err(DecodeError::Malformed));
}

#[test]
fn oversized_message_is_refused() {
    let m = Message::NewBlock { block: vec![0; MAX_ENCODED_LEN - 4] };
    assert!(!check_wf(&m));
    assert!(try_encode(&m).is_none());
}

#[test]
fn ordinary_message_is_accepted() {
    let m = Message::NewBlock { block: vec![0; 1000] };
    assert!(check_wf(&m));
    let bytes = try_encode(&m).expect("fits in a frame");
    assert_eq!(decode(&bytes).unwrap(), m);
}
