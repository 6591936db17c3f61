use belka_chain::account::Account;
use belka_chain::block::{Block, BlockHeader};
use belka_chain::transaction::{Transaction, TransactionInner};

#[test]
fn sha256_known_vectors() {
    let empty = belka_chain::hash::Hash::hash(b"");
    assert_eq!(
        hex::encode(empty.as_slice()),
        "e3b0c44298fc1c149afbf4c8996fb92427ae41e4649b934ca495991b7852b855"
    );
    let abc = belka_chain::hash::Hash::hash(b"abc");
    assert_eq!(
        hex::encode(abc.as_slice()),
        "ba7816bf8f01cfea414140de5dae2223b00361a396177a9cb410ff61f20015ad"
    );
}

#[test]
fn to_hex_matches_the_reference_encoder() {
    let h = belka_chain::hash::Hash::hash(b"some content");
    assert_eq!(h.to_hex(), format!("0x{}", hex::encode(h.as_slice())));
    assert_eq!(
        belka_chain::hash::Hash::zero().to_hex(),
        "0x0000000000000000000000000000000000000000000000000000000000000000"
    );
}

#[test]
fn zero_and_default_and_is_zero() {
    assert!(belka_chain::hash::Hash::zero().is_zero());
    assert!(belka_chain::hash::Hash::default().is_zero());
    assert_eq!(belka_chain::hash::Hash::zero(), belka_chain::hash::Hash::default());
    assert!(!belka_chain::hash::Hash::hash(b"").is_zero());
    let mut almost = [0u8; 32];
    almost[31] = 1;
    assert!(!belka_chain::hash::Hash::from_bytes(almost).is_zero());
}

#[test]
fn from_bytes_round_trip() {
    let bytes = [7u8; 32];
    let h = belka_chain::hash::Hash::from_bytes(bytes);
    assert_eq!(h.as_bytes(), &bytes);
    assert_eq!(h.as_slice(), &bytes[..]);
}

#[test]
fn header_hash_covers_the_documented_canonical_bytes() {
    let parent = belka_chain::hash::Hash::hash(b"parent");
    let header = BlockHeader { version: 2, previous_hash: parent, timestamp: 0x01020304 };
    let mut expected = Vec::new();
    expected.extend_from_slice(&[0, 0, 0, 2]);
    expected.extend_from_slice(parent.as_slice());
    expected.extend_from_slice(&[0, 0, 0, 0, 1, 2, 3, 4]);
    assert_eq!(header.hash(), belka_chain::hash::Hash::hash(&expected));
}

#[test]
fn block_hash_covers_header_transactions_and_state_root() {
    let parent = belka_chain::hash::Hash::hash(b"genesis");
    let state_root = belka_chain::hash::Hash::hash(b"state");
    let tx = Transaction {
        inner: TransactionInner::Transfer { from: [1; 32], to: [2; 32], amount: 500 },
        tip: 7,
    };
    let plain_call = Transaction { inner: TransactionInner::ContractCall(), tip: 0 };
    let block = Block::new(1, parent, vec![tx, plain_call], state_root, 99);

    let mut expected = Vec::new();
    expected.extend_from_slice(&[0, 0, 0, 1]); // header.version
    expected.extend_from_slice(parent.as_slice());
    expected.extend_from_slice(&[0, 0, 0, 0, 0, 0, 0, 99]); // header.timestamp
    expected.extend_from_slice(&[0, 0, 0, 2]); // transaction count
    expected.push(0); // Transfer
    expected.extend_from_slice(&[1; 32]);
    expected.extend_from_slice(&[2; 32]);
    let mut amount = [0u8; 16];
    amount[14] = 1; // 500 = 0x01f4
    amount[15] = 0xf4;
    expected.extend_from_slice(&amount);
    expected.extend_from_slice(&[0u8; 15]);
    expected.push(7); // tip
    expected.push(1); // ContractCall
    expected.extend_from_slice(&[0u8; 16]); // its tip
    expected.extend_from_slice(state_root.as_slice());
    expected.extend_from_slice(&[0, 0, 0, 0, 0, 0, 0, 99]); // block.timestamp
    assert_eq!(block.hash(), belka_chain::hash::Hash::hash(&expected));
}

#[test]
fn block_fields_and_parent_hash() {
    let parent = belka_chain::hash::Hash::hash(b"p");
    let root = belka_chain::hash::Hash::hash(b"r");
    let block = Block::new(3, parent, vec![], root, 1234);
    assert_eq!(block.header.version, 3);
    assert_eq!(block.header.timestamp, 1234);
    assert_eq!(block.timestamp, 1234);
    assert_eq!(block.parent_hash(), parent);
    assert_eq!(block.state_root, root);
    assert!(block.transactions.is_empty());
    assert_ne!(block.hash(), block.header.hash());
}

#[test]
fn fresh_account_is_empty() {
    let account = Account::new([9; 32]);
    assert_eq!(account.address, [9; 32]);
    assert_eq!(account.balance, 0);
    assert_eq!(account.nonce, 0);
    assert!(account.contract_code.is_none());
}
