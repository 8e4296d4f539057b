use sleepy::codec::{
    decode_block, decode_signed_block, decode_signed_transaction, decode_transaction,
    encode_block, encode_signed_block, encode_signed_transaction, encode_transaction,
};
use sleepy::crypto::KeyPair;
use sleepy::hashes::{FixedBytes, H256};
use sleepy::model::{Block, Transaction};
use sleepy::signer::{make_proof, sign_transaction};

fn keypair() -> KeyPair {
    let mut secret = vec![0u8; 32];
    secret[31] = 1;
    let privkey: H256 = FixedBytes::from_vec(secret).unwrap();
    KeyPair::from_privkey(privkey).unwrap()
}

fn sample_transaction(data: Vec<u8>) -> Transaction {
    let mut t = Transaction::new();
    t.set_data(data);
    let h = t.cal_hash();
    Transaction { data: t.data, hash: h }
}

fn sample_block(height: u64, pre_hash: H256, ts: u64) -> Block {
    let kp = keypair();
    let proof = make_proof(ts, &kp);
    let tx = sign_transaction(&sample_transaction(vec![1, 2, 3]), &kp);
    Block { height, pre_hash, proof, transactions: vec![tx] }
}

#[test]
fn transaction_encoding_is_exact() {
    let t = sample_transaction(vec![9, 8]);
    let bytes = encode_transaction(&t);
    // 8-byte length prefix, the payload, then the 32-byte cached hash.
    assert_eq!(bytes.len(), 8 + 2 + 32);
    assert_eq!(&bytes[0..8], &[0, 0, 0, 0, 0, 0, 0, 2]);
    assert_eq!(&bytes[8..10], &[9, 8]);
    assert_eq!(&bytes[10..42], t.hash.as_bytes().as_slice());
}

#[test]
fn transaction_round_trip() {
    let t = sample_transaction(vec![1, 2, 3, 4, 5]);
    let bytes = encode_transaction(&t);
    let back = decode_transaction(&bytes).unwrap();
    assert_eq!(back, t);
    // Re-encoding the decoded value gives the input bytes back.
    assert_eq!(encode_transaction(&back), bytes);
}

#[test]
fn signed_transaction_round_trip() {
    let kp = keypair();
    let st = sign_transaction(&sample_transaction(vec![42; 10]), &kp);
    let bytes = encode_signed_transaction(&st);
    let back = decode_signed_transaction(&bytes).unwrap();
    assert_eq!(back, st);
    assert_eq!(encode_signed_transaction(&back), bytes);
}

#[test]
fn block_round_trip() {
    let b = sample_block(5, FixedBytes::from_vec(vec![7u8; 32]).unwrap(), 1234);
    let bytes = encode_block(&b);
    let back = decode_block(&bytes).unwrap();
    assert_eq!(encode_block(&back), bytes);
    assert_eq!(back.height, 5);
    assert!(back.pre_hash == b.pre_hash);
    assert_eq!(back.proof.timestamp, 1234);
    assert_eq!(back.transactions, b.transactions);
}

#[test]
fn signed_block_round_trip() {
    let kp = keypair();
    let b = sample_block(2, FixedBytes::from_vec(vec![3u8; 32]).unwrap(), 77);
    let sb = b.sign(&kp);
    let bytes = encode_signed_block(&sb);
    let back = decode_signed_block(&bytes).unwrap();
    assert_eq!(encode_signed_block(&back), bytes);
    assert!(back.signer == sb.signer);
    assert!(back.signature == sb.signature);
    assert_eq!(back.block.height, 2);
}

#[test]
fn truncated_input_is_rejected() {
    let t = sample_transaction(vec![1, 2, 3]);
    let mut bytes = encode_transaction(&t);
    bytes.pop();
    assert!(decode_transaction(&bytes).is_none());
    // Trailing garbage is rejected too: the parse must consume every byte.
    let mut bytes2 = encode_transaction(&t);
    bytes2.push(0);
    assert!(decode_transaction(&bytes2).is_none());
    assert!(decode_block(&Vec::new()).is_none());
    assert!(decode_signed_block(&vec![0u8; 3]).is_none());
}
