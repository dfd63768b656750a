use bond_tcp::stream::BondCore;
use bond_tcp::wire::Wire;

#[test]
fn wire_queues_fifo_per_member() {
    let mut wire = Wire::new(3);
    assert_eq!(wire.width(), 3);
    assert_eq!(wire.pending(0), 0);
    wire.push_bytes(0, vec![1, 2, 3]);
    wire.push_bytes(0, vec![4, 5]);
    wire.push_bytes(2, vec![9]);
    assert_eq!(wire.pending(0), 5);
    assert_eq!(wire.pending(1), 0);
    assert_eq!(wire.pending(2), 1);
    assert_eq!(wire.take_bytes(0, 2), vec![1, 2]);
    assert_eq!(wire.pending(0), 3);
    assert_eq!(wire.take_bytes(0, 3), vec![3, 4, 5]);
    assert_eq!(wire.take_bytes(2, 1), vec![9]);
    assert_eq!(wire.pending(0), 0);
    assert_eq!(wire.pending(2), 0);
}

#[test]
fn large_write_wraps_members() {
    // three frames on a bond of two members wrap back to member 0, and
    // the cursor ends three steps along
    let mut core = BondCore::new(2);
    let payload = vec![7u8; 3 * 8192];
    let units = core.write_units(&payload);
    assert_eq!(units.len(), 3);
    assert_eq!(units[0].member, 0);
    assert_eq!(units[1].member, 1);
    assert_eq!(units[2].member, 0);
    assert!(units.iter().all(|u| u.bytes.len() == 4 + 8192));
    assert!(units.iter().all(|u| &u.bytes[0..4] == [0x00, 0x20, 0x00, 0x00]));
    assert_eq!(core.next_stream, 1); // 3 frames mod 2 members
}
