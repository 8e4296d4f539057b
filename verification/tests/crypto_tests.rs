use sleepy::crypto::{recover, sign, verify, KeyPair};
use sleepy::hashes::{FixedBytes, H256};
use sleepy::model::{SignedTransaction, Transaction};
use sleepy::signer::sign_transaction;

fn keypair() -> KeyPair {
    let mut secret = vec![0u8; 32];
    secret[31] = 1;
    let privkey: H256 = FixedBytes::from_vec(secret).unwrap();
    KeyPair::from_privkey(privkey).unwrap()
}

fn hex(s: &str) -> Vec<u8> {
    let b = s.as_bytes();
    let mut out = Vec::new();
    let digit = |c: u8| -> u8 {
        match c {
            b'0'..=b'9' => c - b'0',
            b'a'..=b'f' => c - b'a' + 10,
            _ => panic!("bad digit"),
        }
    };
    let mut i = 0;
    while i < b.len() {
        out.push(digit(b[i]) * 16 + digit(b[i + 1]));
        i += 2;
    }
    out
}

#[test]
fn keccak_of_empty_payload() {
    // The Keccak-256 digest of the empty string.
    let t = Transaction::new();
    let h = t.cal_hash();
    let expected = hex("c5d2460186f7233c927e7db2dcc703c0e500b653ca82273b7bfad8045d85a470");
    assert_eq!(h.as_bytes(), &expected);
}

#[test]
fn keccak_differs_per_input() {
    let mut a = Transaction::new();
    a.set_data(vec![1]);
    let mut b = Transaction::new();
    b.set_data(vec![2]);
    assert!(a.cal_hash() != b.cal_hash());
    assert!(a.cal_hash() == a.cal_hash());
}

#[test]
fn sign_then_verify() {
    let kp = keypair();
    let digest: H256 = FixedBytes::from_vec(vec![0x11u8; 32]).unwrap();
    let sig = sign(kp.privkey(), &digest).unwrap();
    assert!(verify(kp.pubkey(), &sig, &digest));
    // A different digest does not verify.
    let other: H256 = FixedBytes::from_vec(vec![0x22u8; 32]).unwrap();
    assert!(!verify(kp.pubkey(), &sig, &other));
}

#[test]
fn invalid_privkey_is_rejected() {
    // The zero scalar is not a valid secret key.
    let zero: H256 = FixedBytes::from_vec(vec![0u8; 32]).unwrap();
    assert!(KeyPair::from_privkey(zero).is_none());
}

#[test]
fn recover_sender_of_signed_transaction() {
    // The sender's public key comes back out of the signature.
    let kp = keypair();
    let mut t = Transaction::new();
    t.set_data(vec![10, 20, 30]);
    let t = Transaction { hash: t.cal_hash(), data: t.data };
    let st = sign_transaction(&t, &kp);
    let recovered = st.recover_public().unwrap();
    assert!(&recovered == kp.pubkey());
    let direct = recover(&st.signature, &t.hash).unwrap();
    assert!(&direct == kp.pubkey());
}

#[test]
fn recover_rejects_an_empty_signature() {
    let st = SignedTransaction::new();
    assert_eq!(st.recover_public().unwrap_err(), sleepy::error::Error::InvalidSignature);
}
