use bond_tcp::stream::{BondCore, BondError, ReadStep};
use bond_tcp::wire::Wire;
use bond_tcp::FRAGMENT_SIZE;

fn pattern(len: usize) -> Vec<u8> {
    (0..len).map(|i| (i % 256) as u8).collect()
}

#[test]
fn small_write_one_prefixed_frame() {
    // FRAGMENT_SIZE - 1 is the largest payload strictly below the chunk
    // boundary: one frame, one member
    let mut core = BondCore::new(2);
    let payload = pattern(FRAGMENT_SIZE - 1);
    let units = core.write_units(&payload);
    assert_eq!(units.len(), 1);
    assert_eq!(units[0].member, 0);
    assert_eq!(units[0].bytes.len(), 4 + FRAGMENT_SIZE - 1);
    assert_eq!(&units[0].bytes[0..4], &[0xFF, 0x1F, 0x00, 0x00]);
    assert_eq!(&units[0].bytes[4..], &payload[..]);
    assert_eq!(core.next_stream, 1);
}

#[test]
fn boundary_write_exactly_fragment_size() {
    // FRAGMENT_SIZE still fits one chunk: a single frame whose length
    // prefix is exactly FRAGMENT_SIZE
    let mut core = BondCore::new(2);
    let payload = pattern(FRAGMENT_SIZE);
    let units = core.write_units(&payload);
    assert_eq!(units.len(), 1);
    assert_eq!(units[0].member, 0);
    assert_eq!(&units[0].bytes[0..4], &[0x00, 0x20, 0x00, 0x00]);
    assert_eq!(&units[0].bytes[4..], &payload[..]);
    assert_eq!(core.next_stream, 1);
}

#[test]
fn boundary_write_fragment_size_plus_one() {
    // one byte past the boundary splits into two frames, each with its
    // own length prefix, and the cursor advances once per frame
    let mut core = BondCore::new(2);
    let payload = pattern(FRAGMENT_SIZE + 1);
    let units = core.write_units(&payload);
    assert_eq!(units.len(), 2);
    assert_eq!(units[0].member, 0);
    assert_eq!(units[1].member, 1);
    assert_eq!(&units[0].bytes[0..4], &[0x00, 0x20, 0x00, 0x00]);
    assert_eq!(&units[0].bytes[4..], &payload[..FRAGMENT_SIZE]);
    assert_eq!(&units[1].bytes[0..4], &[0x01, 0x00, 0x00, 0x00]);
    assert_eq!(&units[1].bytes[4..], &payload[FRAGMENT_SIZE..]);
    assert_eq!(core.next_stream, 0);
}

#[test]
fn empty_write_emits_empty_frame() {
    let mut core = BondCore::new(3);
    let units = core.write_units(&Vec::new());
    assert_eq!(units.len(), 1);
    assert_eq!(units[0].bytes, vec![0, 0, 0, 0]);
    assert_eq!(core.next_stream, 1);
}

#[test]
fn large_transfer_layout_n4_1mib() {
    // 1 MiB of the value 42 splits into 128 length-prefixed frames of
    // 8192 payload bytes laid out on the members in rotation
    let mut core = BondCore::new(4);
    let payload = vec![42u8; 1_048_576];
    let units = core.write_units(&payload);
    assert_eq!(units.len(), 128);
    let mut total = 0;
    for (k, u) in units.iter().enumerate() {
        assert_eq!(u.member, k % 4);
        assert_eq!(u.bytes.len(), 4 + 8192);
        assert_eq!(&u.bytes[0..4], &[0x00, 0x20, 0x00, 0x00]);
        assert!(u.bytes[4..].iter().all(|&b| b == 42));
        total += u.bytes.len() - 4;
    }
    assert_eq!(total, 1_048_576);
    assert_eq!(core.next_stream, 0); // 128 frames mod 4 members
}

#[test]
fn large_transfer_n4_1mib_read_back() {
    // the 1 MiB transfer read back whole: every delivered byte is 42
    let mut sender = BondCore::new(4);
    let mut receiver = BondCore::new(4);
    let mut wire = Wire::new(4);
    let payload = vec![42u8; 1_048_576];
    sender.write_wire(&mut wire, &payload);
    let got = receiver.read_wire(&mut wire, 1_048_576);
    assert_eq!(got.len(), 1_048_576);
    assert!(got.iter().all(|&b| b == 42));
    assert_eq!(receiver.next_stream, sender.next_stream);
}

#[test]
fn echo_n3_8k() {
    // a client with width 3 sends one 8192-byte patterned write; the
    // server reads 8192 bytes back intact
    let mut sender = BondCore::new(3);
    let mut receiver = BondCore::new(3);
    let mut wire = Wire::new(3);
    let bytes = pattern(8192);
    sender.write_wire(&mut wire, &bytes);
    let got = receiver.read_wire(&mut wire, 8192);
    assert_eq!(got, bytes);
}

#[test]
fn degenerate_width_one() {
    let mut sender = BondCore::new(1);
    let mut receiver = BondCore::new(1);
    let mut wire = Wire::new(1);
    let bytes = pattern(5000);
    sender.write_wire(&mut wire, &bytes);
    let got = receiver.read_wire(&mut wire, 5000);
    assert_eq!(got, bytes);
    assert_eq!(sender.next_stream, 0);
    assert_eq!(receiver.next_stream, 0);
}

#[test]
fn asymmetric_read_buffer_n2() {
    // 8 frames of 4000 bytes each, read back in 100-byte calls
    let mut sender = BondCore::new(2);
    let mut receiver = BondCore::new(2);
    let mut wire = Wire::new(2);
    let mut sent: Vec<u8> = Vec::new();
    for i in 0..8u8 {
        let chunk: Vec<u8> = (0..4000).map(|j| (i as usize + j) as u8).collect();
        sender.write_wire(&mut wire, &chunk);
        sent.extend_from_slice(&chunk);
    }
    let mut got: Vec<u8> = Vec::new();
    for _ in 0..320 {
        got.extend_from_slice(&receiver.read_wire(&mut wire, 100));
    }
    assert_eq!(got.len(), 32_000);
    assert_eq!(got, sent);
}

#[test]
fn residue_tracks_partial_frame() {
    // a read buffer smaller than the inbound frame leaves the remainder
    // as a positive residue on the same member
    let mut sender = BondCore::new(2);
    let mut receiver = BondCore::new(2);
    let mut wire = Wire::new(2);
    let bytes = pattern(1000);
    sender.write_wire(&mut wire, &bytes);
    let first = receiver.read_wire(&mut wire, 300);
    assert_eq!(first, &bytes[..300]);
    assert_eq!(receiver.readable, 700);
    assert_eq!(receiver.next_stream, 0);
    let rest = receiver.read_wire(&mut wire, 700);
    assert_eq!(rest, &bytes[300..]);
    assert_eq!(receiver.readable, 0);
    assert_eq!(receiver.next_stream, 1);
}

#[test]
fn heavy_traffic_n8() {
    // many writes of varying sizes across eight members, read back in
    // irregular calls
    let mut sender = BondCore::new(8);
    let mut receiver = BondCore::new(8);
    let mut wire = Wire::new(8);
    let mut sent: Vec<u8> = Vec::new();
    let sizes = [1usize, 37, 8000, 4096, 16384, 511, 100_000, 123, 8192, 8191, 64, 3000];
    for (i, &sz) in sizes.iter().enumerate().cycle().take(96) {
        let chunk: Vec<u8> = (0..sz).map(|j| (i * 31 + j) as u8).collect();
        sender.write_wire(&mut wire, &chunk);
        sent.extend_from_slice(&chunk);
    }
    let mut got: Vec<u8> = Vec::new();
    let mut left = sent.len();
    let mut step = 1usize;
    while left > 0 {
        let take = step.min(left);
        got.extend_from_slice(&receiver.read_wire(&mut wire, take));
        left -= take;
        step = step % 977 + 73;
    }
    assert_eq!(got, sent);
}

#[test]
fn rotation_alignment_after_k_writes() {
    // after k small writes fully consumed, the receiver's cursor stands
    // at k mod N, in step with the sender's
    let n = 5usize;
    let k = 13usize;
    let mut sender = BondCore::new(n);
    let mut receiver = BondCore::new(n);
    let mut wire = Wire::new(n);
    let mut total = 0;
    for i in 0..k {
        let chunk = vec![i as u8; 10 + i];
        total += chunk.len();
        sender.write_wire(&mut wire, &chunk);
    }
    let _ = receiver.read_wire(&mut wire, total);
    assert_eq!(sender.next_stream, k % n);
    assert_eq!(receiver.next_stream, k % n);
    assert_eq!(receiver.readable, 0);
}

#[test]
fn oversize_length_prefix_is_protocol_violation() {
    let mut core = BondCore::new(2);
    let bad = vec![0x01, 0x20, 0x00, 0x00]; // 8193 > FRAGMENT_SIZE
    match core.accept_header(&bad) {
        Err(BondError::ProtocolViolation) => {}
        Ok(()) => panic!("a length above FRAGMENT_SIZE must be rejected"),
    }
    assert_eq!(core.readable, 0);
    // exactly FRAGMENT_SIZE is still in range
    let edge = vec![0x00, 0x20, 0x00, 0x00]; // 8192
    assert!(core.accept_header(&edge).is_ok());
    assert_eq!(core.readable, 8192);
}

#[test]
fn read_steps_follow_residue() {
    let mut core = BondCore::new(4);
    match core.next_read_step(0, 10) {
        ReadStep::Header { member } => assert_eq!(member, 0),
        _ => panic!("a fresh reader expects a length prefix"),
    }
    let hdr = vec![5, 0, 0, 0];
    core.accept_header(&hdr).unwrap();
    match core.next_read_step(0, 10) {
        ReadStep::Payload { member, count } => {
            assert_eq!(member, 0);
            assert_eq!(count, 5);
        }
        _ => panic!("an open frame expects payload"),
    }
    core.accept_payload(5);
    assert_eq!(core.next_stream, 1);
    assert_eq!(core.readable, 0);
    match core.next_read_step(10, 10) {
        ReadStep::Done => {}
        _ => panic!("a full buffer ends the call"),
    }
    // an empty frame closes at once and advances the rotation
    core.accept_header(&vec![0, 0, 0, 0]).unwrap();
    assert_eq!(core.next_stream, 2);
    assert_eq!(core.readable, 0);
}
