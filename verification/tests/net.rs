use stagcrest::net::PingState;

#[test]
fn ping_goes_out_once_a_second() {
    let mut p = PingState::new();
    assert_eq!(p.maybe_send_ping(true, 400_000_000, 10), None);
    assert_eq!(p.maybe_send_ping(true, 700_000_000, 20), Some(1));
    assert_eq!(p.ping_timer_ns, 0);
    assert_eq!(p.ping_sent_at_ns, Some(20));
    assert_eq!(p.maybe_send_ping(false, 5_000_000_000, 30), None);
    assert_eq!(p.ping_timer_ns, 0);
}

#[test]
fn pong_answers_only_the_latest_ping() {
    let mut p = PingState::new();
    p.maybe_send_ping(true, 1_000_000_000, 100);
    assert_eq!(p.handle_pong(7), None);
    assert_eq!(p.handle_pong(1), Some(100));
    assert_eq!(p.handle_pong(1), None);
}

#[test]
fn nonces_and_pose_sequence_wrap() {
    let mut p = PingState::new();
    p.ping_nonce = u32::MAX;
    assert_eq!(p.maybe_send_ping(true, 2_000_000_000, 0), Some(0));
    p.pose_seq = u32::MAX;
    assert_eq!(p.next_pose_seq(), 0);
    assert_eq!(p.next_pose_seq(), 1);
}
