use bond_tcp::codec::{
    decode_cid, decode_frame_len, decode_handshake_reply, encode_cid, encode_frame_len,
    encode_handshake_reply,
};

#[test]
fn frame_len_encodes_little_endian() {
    let b = encode_frame_len(0x0102_0304);
    assert_eq!(b, vec![0x04, 0x03, 0x02, 0x01]);
    assert_eq!(decode_frame_len(&b), 0x0102_0304);
}

#[test]
fn frame_len_largest_small_frame() {
    // 8191 = FRAGMENT_SIZE - 1, the largest length below the chunk boundary
    let b = encode_frame_len(8191);
    assert_eq!(b, vec![0xFF, 0x1F, 0x00, 0x00]);
    assert_eq!(decode_frame_len(&b), 8191);
}

#[test]
fn frame_len_zero() {
    let b = encode_frame_len(0);
    assert_eq!(b, vec![0, 0, 0, 0]);
    assert_eq!(decode_frame_len(&b), 0);
}

#[test]
fn cid_round_trip() {
    let cid: u128 = 0x0011_2233_4455_6677_8899_AABB_CCDD_EEFF;
    let b = encode_cid(cid);
    assert_eq!(b.len(), 16);
    // little-endian: least significant byte first
    assert_eq!(b[0], 0xFF);
    assert_eq!(b[15], 0x00);
    assert_eq!(decode_cid(&b), cid);
}

#[test]
fn handshake_reply_layout() {
    let cid: u128 = 42;
    let b = encode_handshake_reply(3, cid);
    assert_eq!(b.len(), 17);
    assert_eq!(b[0], 3);
    assert_eq!(b[1], 42);
    assert_eq!(&b[2..], &[0u8; 15]);
    let (width, got) = decode_handshake_reply(&b);
    assert_eq!(width, 3);
    assert_eq!(got, cid);
}
