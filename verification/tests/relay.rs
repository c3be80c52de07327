use tcp_over_ws::relay::{Carrier, RelayEnd, TextOutcome};
use tcp_over_ws::session::Session;

fn bytes(n: usize, seed: u8) -> Vec<u8> {
    let mut v = Vec::new();
    for i in 0..n {
        v.push(seed.wrapping_add((i % 251) as u8));
    }
    v
}

#[test]
fn happy_path_single_carrier() {
    // initiator side: accepts TCP, sends 1000 bytes once the peer's attach
    // ack has arrived, and sees the ack drain its buffer
    let mut s = Session::new(7, 30_000, true, 0);
    let mut c = Carrier::new();
    assert_eq!(s.attach_frame(), b"0".to_vec());
    assert_eq!(c.on_text(&mut s, b"0"), TextOutcome::Proceed);
    let data = bytes(1000, 3);
    c.on_tcp_bytes(&mut s, &data);
    let f = c.next_frame(&s).expect("one frame");
    assert_eq!(f, data);
    assert!(c.next_frame(&s).is_none());
    assert_eq!(c.on_text(&mut s, b"1000"), TextOutcome::Proceed);
    assert_eq!(s.read_cursor(), 1000);
    assert_eq!(s.buffered(), 0);

    // terminator side: writes the 1000 bytes to its TCP peer and acks them
    let mut t = Session::new(7, 30_000, true, 0);
    let ct = Carrier::new();
    let ack = ct.on_binary_delivered(&mut t, &f);
    assert_eq!(ack, b"1000".to_vec());
    assert_eq!(t.write_cursor(), 1000);

    // the reverse direction: terminator reads 500 bytes of TCP, relays them
    let mut ct2 = Carrier::new();
    assert_eq!(ct2.on_text(&mut t, b"0"), TextOutcome::Proceed);
    let back = bytes(500, 9);
    ct2.on_tcp_bytes(&mut t, &back);
    let g = ct2.next_frame(&t).expect("one frame back");
    assert_eq!(g, back);
    assert_eq!(ct2.on_text(&mut t, b"500"), TextOutcome::Proceed);
    assert_eq!(t.read_cursor(), 500);
    assert_eq!(t.buffered(), 0);
}

#[test]
fn carrier_drop_with_replay() {
    let mut s = Session::new(11, 30_000, true, 0);
    let mut c1 = Carrier::new();
    assert_eq!(c1.on_text(&mut s, b"0"), TextOutcome::Proceed);
    let data = bytes(2000, 5);
    c1.on_tcp_bytes(&mut s, &data);
    let f = c1.next_frame(&s).expect("frame");
    assert_eq!(f.len(), 2000);
    assert_eq!(c1.on_text(&mut s, b"800"), TextOutcome::Proceed);
    assert_eq!(s.read_cursor(), 800);
    assert_eq!(s.buffered(), 1200);

    // the carrier drops; the session is preserved
    assert!(!RelayEnd::WsError.must_kill());

    // reattach: our first frame is our write cursor, still zero
    let mut c2 = Carrier::new();
    assert_eq!(s.attach_frame(), b"0".to_vec());
    // the peer's attach ack carries its position: 800
    assert_eq!(c2.on_text(&mut s, b"800"), TextOutcome::Proceed);
    // everything from 800..2000 goes out again, exactly once
    let r = c2.next_frame(&s).expect("replay frame");
    assert_eq!(r, data[800..2000].to_vec());
    assert!(c2.next_frame(&s).is_none());
}

#[test]
fn malicious_ack_rejected() {
    let mut s = Session::new(13, 30_000, true, 0);
    let mut c = Carrier::new();
    assert_eq!(c.on_text(&mut s, b"0"), TextOutcome::Proceed);
    let data = bytes(100, 1);
    c.on_tcp_bytes(&mut s, &data);
    let _ = c.next_frame(&s).expect("frame");
    assert_eq!(c.on_text(&mut s, b"100"), TextOutcome::Proceed);
    let more = bytes(50, 2);
    c.on_tcp_bytes(&mut s, &more);
    assert_eq!(s.read_cursor(), 100);
    assert_eq!(s.buffered(), 50);

    // the peer claims 9999 bytes: protocol violation, nothing changes
    assert_eq!(c.on_text(&mut s, b"9999"), TextOutcome::BadAck);
    assert_eq!(s.read_cursor(), 100);
    assert_eq!(s.buffered(), 50);
    assert!(RelayEnd::AckError.must_kill());
    let mut s = s;
    s.kill(42);
    assert!(s.is_closed());
    assert_eq!(s.buffered(), 0);
    assert!(!s.has_tcp());
    assert_eq!(s.last_use(), 42);
}

#[test]
fn regressing_ack_rejected_without_state_change() {
    let mut s = Session::new(17, 30_000, true, 0);
    let mut c = Carrier::new();
    assert_eq!(c.on_text(&mut s, b"0"), TextOutcome::Proceed);
    let data = bytes(300, 4);
    c.on_tcp_bytes(&mut s, &data);
    let _ = c.next_frame(&s).unwrap();
    assert_eq!(c.on_text(&mut s, b"300"), TextOutcome::Proceed);
    assert_eq!(s.read_cursor(), 300);
    // an ack below the cursor regresses: rejected, cursor untouched
    assert_eq!(c.on_text(&mut s, b"200"), TextOutcome::BadAck);
    assert_eq!(s.read_cursor(), 300);
    assert_eq!(s.buffered(), 0);
}

#[test]
fn graceful_close() {
    let mut s = Session::new(19, 30_000, true, 0);
    let mut c = Carrier::new();
    assert_eq!(c.on_text(&mut s, b""), TextOutcome::Close);
    assert!(RelayEnd::PeerClosed.must_kill());
    s.kill(7);
    assert!(s.is_closed());
    assert!(!s.has_tcp());
    assert_eq!(s.buffered(), 0);
    assert_eq!(s.read_cursor(), 0);
    assert_eq!(s.write_cursor(), 0);
}

#[test]
fn frames_never_exceed_the_limit() {
    let mut s = Session::new(23, 30_000, true, 0);
    let mut c = Carrier::new();
    assert_eq!(c.on_text(&mut s, b"0"), TextOutcome::Proceed);
    let data = bytes(10_000, 6);
    c.on_tcp_bytes(&mut s, &data);
    let f1 = c.next_frame(&s).expect("first frame");
    assert_eq!(f1.len(), 8192);
    assert_eq!(f1, data[..8192].to_vec());
    let f2 = c.next_frame(&s).expect("second frame");
    assert_eq!(f2.len(), 1808);
    assert_eq!(f2, data[8192..].to_vec());
    assert!(c.next_frame(&s).is_none());
}

#[test]
fn nothing_transmitted_before_first_ack() {
    let mut s = Session::new(29, 30_000, true, 0);
    let mut c = Carrier::new();
    c.on_tcp_bytes(&mut s, &bytes(64, 8));
    // the replay cursor is unset: the bytes accumulate but do not go out
    assert!(c.next_frame(&s).is_none());
    assert_eq!(s.buffered(), 64);
    assert_eq!(c.on_text(&mut s, b"0"), TextOutcome::Proceed);
    assert_eq!(c.next_frame(&s).expect("now it drains").len(), 64);
}

#[test]
fn non_numeric_text_is_ignored() {
    let mut s = Session::new(31, 30_000, true, 0);
    let mut c = Carrier::new();
    assert_eq!(c.on_text(&mut s, b"hello"), TextOutcome::Proceed);
    assert_eq!(c.on_text(&mut s, b"12a"), TextOutcome::Proceed);
    assert_eq!(s.read_cursor(), 0);
}

#[test]
fn dispositions() {
    assert!(RelayEnd::PeerClosed.must_kill());
    assert!(RelayEnd::TcpError.must_kill());
    assert!(RelayEnd::AckError.must_kill());
    assert!(!RelayEnd::WsError.must_kill());
    assert!(!RelayEnd::WsDone.must_kill());
}

#[test]
fn fresh_ids_are_nonzero() {
    for _ in 0..32 {
        assert_ne!(tcp_over_ws::session::fresh_session_id(), 0);
    }
}

#[test]
fn direction_labels() {
    assert_eq!(tcp_over_ws::Direction::WsToTcp.label(), "WsToTcp");
    assert_eq!(tcp_over_ws::Direction::TcpToWs.label(), "TcpToWs");
}
