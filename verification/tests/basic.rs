use coffer::wire::{framed, header_len_ok, read_header, MAX_PAYLOAD_LEN, MSG_HELLO, MSG_OK_GET};

#[test]
fn it_works() {
    assert_eq!(2 + 2, 4);
}

#[test]
fn frame_layout() {
    let frame = framed(MSG_OK_GET, vec![0xde, 0xad, 0xbe, 0xef]);
    assert_eq!(frame.len(), 13);
    assert_eq!(&frame[0..8], &[0, 0, 0, 0, 0, 0, 0, 4]);
    assert_eq!(frame[8], 0x05);
    assert_eq!(&frame[9..], &[0xde, 0xad, 0xbe, 0xef]);
}

#[test]
fn frame_round_trip() {
    let payload = vec![7u8, 1, 255, 0, 42];
    let frame = framed(MSG_HELLO, payload.clone());
    let (len, msg_type) = read_header(&frame[0..9]);
    assert_eq!(len, payload.len() as u64);
    assert_eq!(msg_type, MSG_HELLO);
    assert_eq!(&frame[9..], payload.as_slice());
}

#[test]
fn empty_frame_round_trip() {
    let frame = framed(0x99, Vec::new());
    assert_eq!(frame.len(), 9);
    let (len, msg_type) = read_header(&frame[0..9]);
    assert_eq!(len, 0);
    assert_eq!(msg_type, 0x99);
}

#[test]
fn header_bound() {
    assert!(header_len_ok(0));
    assert!(header_len_ok(MAX_PAYLOAD_LEN));
    assert!(!header_len_ok(MAX_PAYLOAD_LEN + 1));
    assert!(!header_len_ok(1u64 << 40));
}

#[test]
fn large_length_header() {
    let mut header = vec![0u8; 9];
    header[2] = 1; // payload length 2^40
    header[8] = MSG_HELLO;
    let (len, msg_type) = read_header(&header);
    assert_eq!(len, 1u64 << 40);
    assert_eq!(msg_type, MSG_HELLO);
    assert!(!header_len_ok(len));
}
