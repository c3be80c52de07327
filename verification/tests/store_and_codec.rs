use tcp_over_ws::dec::{parse_u64_dec, u64_to_dec};
use tcp_over_ws::store::SessionStore;
use tcp_over_ws::{decode_id_header, decode_timeout_header};

#[test]
fn decimal_codec() {
    assert_eq!(u64_to_dec(0), b"0".to_vec());
    assert_eq!(u64_to_dec(9601), b"9601".to_vec());
    assert_eq!(u64_to_dec(u64::MAX), b"18446744073709551615".to_vec());
    assert_eq!(parse_u64_dec(b"0"), Some(0));
    assert_eq!(parse_u64_dec(b"007"), Some(7));
    assert_eq!(parse_u64_dec(b"18446744073709551615"), Some(u64::MAX));
    assert_eq!(parse_u64_dec(b"18446744073709551616"), None);
    assert_eq!(parse_u64_dec(b""), None);
    assert_eq!(parse_u64_dec(b"+5"), None);
    assert_eq!(parse_u64_dec(b"12a"), None);
}

#[test]
fn decimal_round_trip() {
    for n in [0u64, 1, 9, 10, 99, 100, 30_000, 300_000, u64::MAX] {
        assert_eq!(parse_u64_dec(&u64_to_dec(n)), Some(n));
    }
}

#[test]
fn header_decoding() {
    assert_eq!(decode_id_header(None), 0);
    assert_eq!(decode_id_header(Some(b"42")), 42);
    assert_eq!(decode_id_header(Some(b"junk")), 0);
    assert_eq!(decode_timeout_header(None), 30_000);
    assert_eq!(decode_timeout_header(Some(b"1000")), 1000);
    assert_eq!(decode_timeout_header(Some(b"999999")), 300_000);
    assert_eq!(decode_timeout_header(Some(b"bad")), 30_000);
}

#[test]
fn second_attach_is_refused() {
    let mut st = SessionStore::new();
    let s = st.try_attach(5, 30_000, 0).expect("fresh session");
    assert_eq!(s.id(), 5);
    assert!(st.is_locked(5));
    // a second carrier for the same id is refused while the first is live
    assert!(st.try_attach(5, 30_000, 1).is_none());
    assert_eq!(st.len(), 1);
    st.detach(5, s, 2);
    assert!(!st.is_locked(5));
    // now a reattach succeeds and hands the same session back
    let s2 = st.try_attach(5, 30_000, 3).expect("reattach");
    assert_eq!(s2.id(), 5);
}

#[test]
fn idle_sessions_are_swept() {
    let mut st = SessionStore::new();
    let s = st.try_attach(9, 30_000, 0).expect("fresh");
    st.detach(9, s, 0);
    // 60 s later the sweeper runs: the session sat idle past 30 s
    let removed = st.sweep(60_000);
    assert_eq!(removed, vec![9]);
    assert_eq!(st.len(), 0);
    // a later attach with the same id makes a fresh session
    let s2 = st.try_attach(9, 30_000, 61_000).expect("fresh again");
    assert_eq!(s2.read_cursor(), 0);
    assert_eq!(s2.write_cursor(), 0);
    assert!(!s2.is_closed());
}

#[test]
fn live_and_fresh_sessions_survive_the_sweep() {
    let mut st = SessionStore::new();
    // one session is held by a relay: locked slots are never reaped
    let _held = st.try_attach(1, 30_000, 0).expect("held");
    // one sat only a moment: not yet expired
    let s = st.try_attach(2, 30_000, 50_000).expect("young");
    st.detach(2, s, 50_000);
    let removed = st.sweep(60_000);
    assert_eq!(removed, Vec::<u64>::new());
    assert_eq!(st.len(), 2);
}

#[test]
fn sweep_respects_each_timeout() {
    let mut st = SessionStore::new();
    let a = st.try_attach(3, 10_000, 0).expect("short timeout");
    st.detach(3, a, 0);
    let b = st.try_attach(4, 300_000, 0).expect("long timeout");
    st.detach(4, b, 0);
    let removed = st.sweep(20_000);
    assert_eq!(removed, vec![3]);
    assert_eq!(st.len(), 1);
}

#[test]
fn requested_timeouts_are_clamped() {
    let mut st = SessionStore::new();
    let s = st.try_attach(6, 999_999, 0).expect("fresh");
    assert_eq!(s.timeout_ms(), 300_000);
}
