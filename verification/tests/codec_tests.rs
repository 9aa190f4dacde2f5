use snakes::base::{
    Config, Coord, Direction, GamePlayer, GameState, NodeRole, PlayerType, Snake, SnakeState,
};
use snakes::codec::{decode, encode};
use snakes::message::{GameAnnouncement, GameMessage, Payload};

fn envelope(payload: Payload) -> GameMessage {
    GameMessage { msg_seq: 7, sender_id: Some(3), receiver_id: None, payload }
}

fn player(id: i32, name: &str) -> GamePlayer {
    GamePlayer {
        name: name.to_string(),
        id,
        ip_address: String::from("10.0.0.1:5000"),
        role: NodeRole::NORMAL,
        player_type: PlayerType::HUMAN,
        score: 30,
    }
}

fn same_player(a: &GamePlayer, b: &GamePlayer) -> bool {
    a.name == b.name
        && a.id == b.id
        && a.ip_address == b.ip_address
        && a.role == b.role
        && a.player_type == b.player_type
        && a.score == b.score
}

fn same_snake(a: &Snake, b: &Snake) -> bool {
    a.player_id == b.player_id && a.body == b.body && a.direction == b.direction && a.state == b.state
}

fn same_state(a: &GameState, b: &GameState) -> bool {
    a.state_order == b.state_order
        && a.foods == b.foods
        && a.snakes.len() == b.snakes.len()
        && a.snakes.iter().zip(b.snakes.iter()).all(|(x, y)| same_snake(x, y))
        && a.players.len() == b.players.len()
        && a.players.iter().zip(b.players.iter()).all(|(x, y)| same_player(x, y))
}

fn same_announcement(a: &GameAnnouncement, b: &GameAnnouncement) -> bool {
    a.config == b.config
        && a.can_join == b.can_join
        && a.game_name == b.game_name
        && a.players.len() == b.players.len()
        && a.players.iter().zip(b.players.iter()).all(|(x, y)| same_player(x, y))
}

fn same_payload(a: &Payload, b: &Payload) -> bool {
    match (a, b) {
        (Payload::Ping, Payload::Ping) => true,
        (Payload::Ack, Payload::Ack) => true,
        (Payload::Discover, Payload::Discover) => true,
        (Payload::Steer { direction: x }, Payload::Steer { direction: y }) => x == y,
        (Payload::State { state: x }, Payload::State { state: y }) => same_state(x, y),
        (Payload::Announcement { games: x }, Payload::Announcement { games: y }) => {
            x.len() == y.len() && x.iter().zip(y.iter()).all(|(g, h)| same_announcement(g, h))
        }
        (
            Payload::Join { player_type: t1, player_name: n1, game_name: g1, requested_role: r1 },
            Payload::Join { player_type: t2, player_name: n2, game_name: g2, requested_role: r2 },
        ) => t1 == t2 && n1 == n2 && g1 == g2 && r1 == r2,
        (Payload::Error { error_message: x }, Payload::Error { error_message: y }) => x == y,
        (
            Payload::RoleChange { sender_role: s1, receiver_role: r1 },
            Payload::RoleChange { sender_role: s2, receiver_role: r2 },
        ) => s1 == s2 && r1 == r2,
        _ => false,
    }
}

fn same_message(a: &GameMessage, b: &GameMessage) -> bool {
    a.msg_seq == b.msg_seq
        && a.sender_id == b.sender_id
        && a.receiver_id == b.receiver_id
        && same_payload(&a.payload, &b.payload)
}

fn assert_roundtrip(m: GameMessage) {
    let bytes = encode(&m).expect("the message fits into a datagram");
    assert!(bytes.len() <= 1024);
    let back = decode(&bytes).expect("the datagram holds the message");
    assert!(same_message(&m, &back));
}

fn sample_state() -> GameState {
    GameState {
        state_order: 12,
        snakes: vec![
            Snake {
                player_id: 1,
                body: vec![Coord::new(1, 2), Coord::new(2, 2), Coord::new(2, 3)],
                direction: Direction::DOWN,
                state: SnakeState::ALIVE,
            },
            Snake {
                player_id: 2,
                body: vec![Coord::new(-1, 7)],
                direction: Direction::LEFT,
                state: SnakeState::ZOMBIE,
            },
        ],
        foods: vec![Coord::new(0, 0), Coord::new(9, 9)],
        players: vec![player(1, "ann"), player(2, "bö")],
    }
}

#[test]
fn roundtrip_ping() {
    assert_roundtrip(envelope(Payload::Ping));
}

#[test]
fn roundtrip_ack() {
    assert_roundtrip(GameMessage {
        msg_seq: i64::MIN,
        sender_id: None,
        receiver_id: Some(-5),
        payload: Payload::Ack,
    });
}

#[test]
fn roundtrip_discover() {
    assert_roundtrip(envelope(Payload::Discover));
}

#[test]
fn roundtrip_steer_every_direction() {
    for d in [Direction::UP, Direction::DOWN, Direction::LEFT, Direction::RIGHT] {
        assert_roundtrip(envelope(Payload::Steer { direction: d }));
    }
}

#[test]
fn roundtrip_join() {
    assert_roundtrip(envelope(Payload::Join {
        player_type: PlayerType::ROBOT,
        player_name: String::from("Player"),
        game_name: String::from("Snake game"),
        requested_role: NodeRole::VIEWER,
    }));
}

#[test]
fn roundtrip_error() {
    assert_roundtrip(envelope(Payload::Error {
        error_message: String::from("no available space for snake"),
    }));
}

#[test]
fn roundtrip_role_change() {
    assert_roundtrip(envelope(Payload::RoleChange {
        sender_role: Some(NodeRole::MASTER),
        receiver_role: Some(NodeRole::VIEWER),
    }));
    assert_roundtrip(envelope(Payload::RoleChange {
        sender_role: Some(NodeRole::DEPUTY),
        receiver_role: None,
    }));
    assert_roundtrip(envelope(Payload::RoleChange { sender_role: None, receiver_role: None }));
}

#[test]
fn roundtrip_state() {
    assert_roundtrip(GameMessage {
        msg_seq: i64::MAX,
        sender_id: Some(0),
        receiver_id: Some(i32::MAX),
        payload: Payload::State { state: sample_state() },
    });
}

#[test]
fn roundtrip_announcement() {
    let game = GameAnnouncement {
        players: vec![player(0, "Admin")],
        config: Config { width: 10, height: 12, food_static: 3, state_delay_ms: 500 },
        can_join: true,
        game_name: String::from("G"),
    };
    let closed = GameAnnouncement {
        players: vec![],
        config: Config { width: 1, height: 1, food_static: 0, state_delay_ms: 1 },
        can_join: false,
        game_name: String::new(),
    };
    assert_roundtrip(envelope(Payload::Announcement { games: vec![game, closed] }));
    assert_roundtrip(envelope(Payload::Announcement { games: vec![] }));
}

#[test]
fn ping_has_these_bytes() {
    let m = GameMessage { msg_seq: 258, sender_id: Some(1), receiver_id: None, payload: Payload::Ping };
    let bytes = encode(&m).unwrap();
    assert_eq!(
        bytes,
        vec![
            2, 1, 0, 0, 0, 0, 0, 0, // the sequence number, least byte first
            1, 1, 0, 0, 0, // a sender id, and it is 1
            0,    // no receiver id
            2,    // a ping
        ]
    );
}

#[test]
fn steer_has_these_bytes() {
    let m = GameMessage {
        msg_seq: -1,
        sender_id: None,
        receiver_id: Some(-2),
        payload: Payload::Steer { direction: Direction::RIGHT },
    };
    let bytes = encode(&m).unwrap();
    assert_eq!(
        bytes,
        vec![255, 255, 255, 255, 255, 255, 255, 255, 0, 1, 254, 255, 255, 255, 3, 4]
    );
}

#[test]
fn error_text_is_counted_in_bytes() {
    let m = GameMessage {
        msg_seq: 0,
        sender_id: None,
        receiver_id: None,
        payload: Payload::Error { error_message: String::from("ö!") },
    };
    let bytes = encode(&m).unwrap();
    assert_eq!(bytes, vec![0, 0, 0, 0, 0, 0, 0, 0, 0, 0, 8, 3, 0, 0xc3, 0xb6, b'!']);
}

#[test]
fn decode_refuses_trailing_bytes() {
    let mut bytes = encode(&envelope(Payload::Ping)).unwrap();
    bytes.push(0);
    assert!(decode(&bytes).is_none());
}

#[test]
fn decode_refuses_truncated_bytes() {
    let bytes = encode(&envelope(Payload::State { state: sample_state() })).unwrap();
    for cut in 0..bytes.len() {
        assert!(decode(&bytes[..cut].to_vec()).is_none());
    }
}

#[test]
fn decode_refuses_unknown_tags() {
    // a payload tag that names no kind
    let bytes = vec![0, 0, 0, 0, 0, 0, 0, 0, 0, 0, 1];
    assert!(decode(&bytes).is_none());
    // a direction that is none
    let bytes = vec![0, 0, 0, 0, 0, 0, 0, 0, 0, 0, 3, 9];
    assert!(decode(&bytes).is_none());
    // a flag that is neither 0 nor 1
    let bytes = vec![0, 0, 0, 0, 0, 0, 0, 0, 2, 0, 2];
    assert!(decode(&bytes).is_none());
}

#[test]
fn decode_refuses_text_that_is_not_utf8() {
    let bytes = vec![0, 0, 0, 0, 0, 0, 0, 0, 0, 0, 8, 2, 0, 0xff, 0xfe];
    assert!(decode(&bytes).is_none());
}

#[test]
fn decode_of_nothing_fails() {
    assert!(decode(&vec![]).is_none());
}

#[test]
fn message_that_is_too_long_is_not_encoded() {
    let long = "x".repeat(1024);
    let m = envelope(Payload::Error { error_message: long });
    assert!(encode(&m).is_none());
    // 8 + 5 + 1 + 1 + 2 bytes go before the text
    let fitting = "x".repeat(1024 - 17);
    let m = envelope(Payload::Error { error_message: fitting });
    assert_eq!(encode(&m).unwrap().len(), 1024);
    let one_more = "x".repeat(1024 - 16);
    let m = envelope(Payload::Error { error_message: one_more });
    assert!(encode(&m).is_none());
}

#[test]
fn payloads_that_are_acknowledged() {
    assert!(Payload::Ping.needs_ack());
    assert!(Payload::Steer { direction: Direction::UP }.needs_ack());
    assert!(Payload::State { state: sample_state() }.needs_ack());
    assert!(Payload::RoleChange { sender_role: None, receiver_role: None }.needs_ack());
    assert!(Payload::Join {
        player_type: PlayerType::HUMAN,
        player_name: String::new(),
        game_name: String::new(),
        requested_role: NodeRole::NORMAL,
    }
    .needs_ack());
    assert!(!Payload::Ack.needs_ack());
    assert!(!Payload::Discover.needs_ack());
    assert!(!Payload::Announcement { games: vec![] }.needs_ack());
    assert!(!Payload::Error { error_message: String::new() }.needs_ack());
}
