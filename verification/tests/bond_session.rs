use bond_tcp::session::{AcceptStep, SessionTable};

#[test]
fn session_completes_at_width() {
    let mut table = SessionTable::new(3);
    // first flow: unknown token opens a session under a fresh CID
    let cid = match table.on_member(0xDEAD, 10) {
        AcceptStep::AwaitMore { reply: Some(cid) } => cid,
        _ => panic!("the first member must open a session and owe a reply"),
    };
    // second flow joins, bond still short
    match table.on_member(cid, 11) {
        AcceptStep::AwaitMore { reply: None } => {}
        _ => panic!("a follow-on member short of the width must wait"),
    }
    // third flow completes the bond, members in arrival order
    match table.on_member(cid, 12) {
        AcceptStep::Ready { reply: None, members } => {
            assert_eq!(members, vec![10, 11, 12]);
        }
        _ => panic!("the width-th member must complete the bond"),
    }
    // the completed session left the table: its CID reads as unknown
    match table.on_member(cid, 13) {
        AcceptStep::AwaitMore { reply: Some(fresh) } => assert_ne!(fresh, cid),
        _ => panic!("a completed CID must be treated as a new token"),
    }
}

#[test]
fn interleaved_sessions_stay_apart() {
    // two clients connect concurrently with width 2; their flows
    // interleave at the listener and end up in two separate bonds
    let mut table = SessionTable::new(2);
    let cid_a = match table.on_member(1, 100) {
        AcceptStep::AwaitMore { reply: Some(c) } => c,
        _ => panic!("first flow of client a must open a session"),
    };
    let cid_b = match table.on_member(2, 200) {
        AcceptStep::AwaitMore { reply: Some(c) } => c,
        _ => panic!("first flow of client b must open a session"),
    };
    assert_ne!(cid_a, cid_b);
    match table.on_member(cid_b, 201) {
        AcceptStep::Ready { reply: None, members } => assert_eq!(members, vec![200, 201]),
        _ => panic!("client b's second flow must complete its bond"),
    }
    match table.on_member(cid_a, 101) {
        AcceptStep::Ready { reply: None, members } => assert_eq!(members, vec![100, 101]),
        _ => panic!("client a's second flow must complete its bond"),
    }
}

#[test]
fn width_one_completes_on_first_flow() {
    let mut table = SessionTable::new(1);
    match table.on_member(7, 70) {
        AcceptStep::Ready { reply: Some(_), members } => assert_eq!(members, vec![70]),
        _ => panic!("with width 1 the first flow both opens and completes the bond"),
    }
}

#[test]
fn discard_drops_partial_session() {
    let mut table = SessionTable::new(2);
    let cid = match table.on_member(5, 50) {
        AcceptStep::AwaitMore { reply: Some(c) } => c,
        _ => panic!("first flow must open a session"),
    };
    // the flow failed mid-handshake: the partial session is dropped
    table.discard(cid);
    // the CID now reads as an unknown token again
    match table.on_member(cid, 51) {
        AcceptStep::AwaitMore { reply: Some(fresh) } => assert_ne!(fresh, cid),
        _ => panic!("a discarded CID must be treated as a new token"),
    }
}
