use sleepy::network::{encode_frame, handshake_frame, is_send, Operation};

#[test]
fn is_seng_mag() {
    assert!(is_send(0, 0, Operation::BROADCAST));
    assert!(is_send(0, 1, Operation::BROADCAST));

    assert!(is_send(0, 0, Operation::SINGLE));
    assert!(!is_send(0, 1, Operation::SINGLE));

    assert!(!is_send(0, 0, Operation::SUBTRACT));
    assert!(is_send(0, 1, Operation::SUBTRACT));
}

#[test]
fn frame_layout() {
    let msg = vec![0xAAu8, 0xBB, 0xCC];
    let frame = encode_frame(&msg, 0x01020304);
    // 8-byte tag: marker in the high half, payload length + 4 in the low half.
    assert_eq!(frame.len(), 8 + 4 + 3);
    assert_eq!(&frame[0..4], &[0xDE, 0xAD, 0xBE, 0xEF]);
    assert_eq!(&frame[4..8], &[0, 0, 0, 7]);
    // 4-byte origin identifier.
    assert_eq!(&frame[8..12], &[1, 2, 3, 4]);
    // payload.
    assert_eq!(&frame[12..], &[0xAA, 0xBB, 0xCC]);
}

#[test]
fn frame_empty_payload() {
    let frame = encode_frame(&Vec::new(), 9);
    assert_eq!(frame, vec![0xDE, 0xAD, 0xBE, 0xEF, 0, 0, 0, 4, 0, 0, 0, 9]);
}

#[test]
fn handshake_layout() {
    assert_eq!(handshake_frame(), vec![0xDE, 0xAD, 0xBE, 0xEF, 0, 0, 0, 0]);
}
