use snakes::base::{Direction, NodeRole};
use snakes::channel::{elapsed_ms, retransmit_delay_ms, PendingMsg, ReliableChannel};
use snakes::codec::decode;
use snakes::message::{GameMessage, Payload};

fn message(payload: Payload) -> GameMessage {
    GameMessage { msg_seq: 99, sender_id: Some(4), receiver_id: None, payload }
}

fn master() -> String {
    String::from("192.168.0.2:7000")
}

#[test]
fn new_channel_starts_at_zero() {
    let c = ReliableChannel::new(40);
    assert_eq!(c.next_seq, 0);
    assert_eq!(c.last_applied_seq, -1);
    assert!(c.pending.is_empty());
    assert_eq!(c.last_seen_time, 40);
    assert_eq!(c.ping_seq, -1);
}

#[test]
fn send_numbers_the_messages() {
    let mut c = ReliableChannel::new(0);
    let d0 = c.send(message(Payload::Steer { direction: Direction::UP }), &master(), 5).unwrap();
    let d1 = c.send(message(Payload::Steer { direction: Direction::LEFT }), &master(), 6).unwrap();
    assert_eq!(d0.addr, master());
    assert_eq!(decode(&d0.bytes).unwrap().msg_seq, 0);
    assert_eq!(decode(&d1.bytes).unwrap().msg_seq, 1);
    assert_eq!(c.next_seq, 2);
    assert_eq!(c.pending.len(), 2);
    assert_eq!(c.pending[0].seq, 0);
    assert_eq!(c.pending[0].msg, d0.bytes);
    assert_eq!(c.pending[0].send_time, Some(5));
    assert_eq!(c.pending[0].send_count, 1);
    assert_eq!(c.pending[1].seq, 1);
    assert!(c.is_pending(1));
    assert!(!c.is_pending(2));
}

#[test]
fn messages_without_acknowledgement_are_not_retained() {
    let mut c = ReliableChannel::new(0);
    for payload in [
        Payload::Ack,
        Payload::Discover,
        Payload::Announcement { games: vec![] },
        Payload::Error { error_message: String::from("e") },
    ] {
        assert!(c.send(message(payload), &master(), 1).is_some());
    }
    assert!(c.pending.is_empty());
    assert_eq!(c.next_seq, 4);
}

#[test]
fn message_that_does_not_fit_is_not_sent() {
    let mut c = ReliableChannel::new(0);
    let long = Payload::Error { error_message: "y".repeat(2000) };
    assert!(c.send(message(long), &master(), 1).is_none());
    assert_eq!(c.next_seq, 0);
    assert!(c.pending.is_empty());
}

#[test]
fn ack_removes_exactly_one_entry() {
    let mut c = ReliableChannel::new(0);
    for _ in 0..3 {
        c.send(message(Payload::Ping), &master(), 1);
    }
    assert_eq!(c.pending.len(), 3);
    c.on_ack(1, 50);
    assert_eq!(c.pending.len(), 2);
    assert_eq!(c.pending[0].seq, 0);
    assert_eq!(c.pending[1].seq, 2);
    assert_eq!(c.last_seen_time, 50);
    // an acknowledgement of nothing that waits removes nothing
    c.on_ack(1, 60);
    c.on_ack(17, 70);
    assert_eq!(c.pending.len(), 2);
    assert_eq!(c.last_seen_time, 70);
}

#[test]
fn steer_is_retransmitted_five_times_then_dropped() {
    let delay_ms = 500;
    let mut c = ReliableChannel::new(0);
    let first = c.send(message(Payload::Steer { direction: Direction::DOWN }), &master(), 0).unwrap();
    let mut retransmissions = 0;
    let mut now = 0;
    let mut last_retransmission = 0;
    while !c.pending.is_empty() {
        now += 51;
        let out = c.tick(now, delay_ms);
        for d in &out {
            assert_eq!(d.bytes, first.bytes);
            assert_eq!(d.addr, master());
            last_retransmission = now;
        }
        retransmissions += out.len();
        assert!(now < 10_000);
    }
    assert_eq!(retransmissions, 5);
    assert!(c.tick(now + 1000, delay_ms).is_empty());
    // the master never answered: it is given up within 0.8 tick periods
    assert!(!c.expired(400, delay_ms));
    assert!(c.expired(401, delay_ms));
    assert!(c.expired(last_retransmission + 400, delay_ms));
}

#[test]
fn tick_waits_for_the_delay() {
    let mut c = ReliableChannel::new(0);
    c.send(message(Payload::Ping), &master(), 100);
    // a tenth of 500 ms must have passed, and more
    assert!(c.tick(150, 500).is_empty());
    assert_eq!(c.pending[0].send_count, 1);
    let out = c.tick(151, 500);
    assert_eq!(out.len(), 1);
    assert_eq!(c.pending[0].send_count, 2);
    assert_eq!(c.pending[0].send_time, Some(151));
    assert!(c.tick(151, 500).is_empty());
}

#[test]
fn message_that_was_never_transmitted_is_due_at_once() {
    let mut c = ReliableChannel::new(0);
    c.pending.push(PendingMsg::new(3, vec![1, 2, 3], master()));
    assert_eq!(c.pending[0].send_time, None);
    assert_eq!(c.pending[0].send_count, 0);
    let out = c.tick(0, 500);
    assert_eq!(out.len(), 1);
    assert_eq!(out[0].bytes, vec![1, 2, 3]);
    assert_eq!(c.pending[0].send_count, 1);
    assert_eq!(c.pending[0].send_time, Some(0));
}

#[test]
fn pending_message_counts_its_transmissions() {
    let mut p = PendingMsg::new(1, vec![9], master());
    let d = p.send(77);
    assert_eq!(d.bytes, vec![9]);
    assert_eq!(d.addr, master());
    assert_eq!(p.send_count, 1);
    assert_eq!(p.send_time, Some(77));
    p.send(80);
    assert_eq!(p.send_count, 2);
    assert_eq!(p.send_time, Some(80));
}

#[test]
fn one_ping_at_a_time() {
    let mut c = ReliableChannel::new(1000);
    assert!(!c.should_ping(1050, 500));
    assert!(c.should_ping(1051, 500));
    c.send(message(Payload::Ping), &master(), 1051);
    assert_eq!(c.ping_seq, 0);
    assert!(!c.should_ping(1200, 500));
    c.on_ack(0, 1210);
    assert!(!c.should_ping(1260, 500));
    assert!(c.should_ping(1261, 500));
}

#[test]
fn peer_expires_after_eight_tenths_of_the_period() {
    let mut c = ReliableChannel::new(0);
    assert!(!c.expired(400, 500));
    assert!(c.expired(401, 500));
    c.heard(300);
    assert!(!c.expired(700, 500));
    assert!(c.expired(701, 500));
    // a clock that runs backwards shows no silence
    assert!(!c.expired(0, 500));
}

#[test]
fn states_are_applied_in_order() {
    let mut c = ReliableChannel::new(0);
    assert!(c.accept(0));
    assert!(c.accept(3));
    assert!(!c.accept(2));
    assert!(!c.accept(-1));
    assert_eq!(c.last_applied_seq, 3);
    // the same state again is taken again
    assert!(c.accept(3));
    assert!(c.accept(10));
    assert!(!c.accept(9));
    assert_eq!(c.last_applied_seq, 10);
}

#[test]
fn role_change_waits_for_acknowledgement() {
    let mut c = ReliableChannel::new(0);
    let d = c
        .send(
            message(Payload::RoleChange { sender_role: Some(NodeRole::VIEWER), receiver_role: None }),
            &master(),
            0,
        )
        .unwrap();
    assert_eq!(c.pending.len(), 1);
    assert_eq!(c.pending[0].msg, d.bytes);
}

#[test]
fn delays_and_elapsed_time() {
    assert_eq!(retransmit_delay_ms(500), 50);
    assert_eq!(retransmit_delay_ms(9), 0);
    assert_eq!(retransmit_delay_ms(-4), 0);
    assert_eq!(elapsed_ms(10, 4), 6);
    assert_eq!(elapsed_ms(4, 10), 0);
}
