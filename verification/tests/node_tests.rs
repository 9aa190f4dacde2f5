use snakes::base::{
    Config, Coord, Direction, GamePlayer, GameState, NodeRole, PlayerType, Snake, SnakeState,
    WorldCell,
};
use snakes::channel::Datagram;
use snakes::client::{Client, InputEvent, Succession};
use snakes::codec::{decode, encode};
use snakes::join::{discover, JoinError, JoinStep, Joining};
use snakes::message::{GameAnnouncement, GameMessage, Payload};
use snakes::rounds::cap_state;
use snakes::server::Server;

fn config() -> Config {
    Config { width: 10, height: 10, food_static: 1, state_delay_ms: 500 }
}

fn addr(n: u16) -> String {
    format!("10.0.0.{}:4000", n)
}

fn join_message(role: NodeRole) -> GameMessage {
    GameMessage {
        msg_seq: 0,
        sender_id: None,
        receiver_id: None,
        payload: Payload::Join {
            player_type: PlayerType::HUMAN,
            player_name: String::from("Player"),
            game_name: String::from("G"),
            requested_role: role,
        },
    }
}

fn from_client(seq: i64, payload: Payload) -> GameMessage {
    GameMessage { msg_seq: seq, sender_id: Some(1), receiver_id: None, payload }
}

fn decoded(out: &[Datagram]) -> Vec<GameMessage> {
    out.iter().map(|d| decode(&d.bytes).expect("a datagram holds a message")).collect()
}

fn room(x: i32, y: i32) -> Option<(Coord, Coord, Direction)> {
    Some((Coord::new(x, y), Coord::new(x - 1, y), Direction::RIGHT))
}

fn master_with_player() -> Server {
    let mut s = Server::new(config(), String::from("G"), 0);
    let out = s.receive_with(&join_message(NodeRole::NORMAL), &addr(1), 0, room(5, 5));
    assert_eq!(out.len(), 1);
    s
}

#[test]
fn new_master_is_empty() {
    let s = Server::new(config(), String::from("G"), 12);
    assert_eq!(s.name, "G");
    assert_eq!(s.id, 0);
    assert_eq!(s.player_id, 1);
    assert_eq!(s.seq, 0);
    assert!(s.peers.is_empty());
    assert!(s.game.players.is_empty());
    assert_eq!(s.game_time, 12);
    assert_eq!(s.multicast_time, 12);
}

#[test]
fn join_handshake_happy_path() {
    let mut master = Server::new(config(), String::from("G"), 0);
    let master_addr = addr(9);
    let client_addr = addr(1);

    // the client asks what the master offers
    let mut joining =
        Joining::new(master_addr.clone(), String::from("G"), String::from("Player"), NodeRole::NORMAL);
    let out = discover(&master_addr);
    assert_eq!(out.len(), 1);
    assert_eq!(out[0].addr, master_addr);
    let discover_msg = decode(&out[0].bytes).unwrap();
    assert_eq!(discover_msg.msg_seq, 0);
    assert!(matches!(discover_msg.payload, Payload::Discover));

    // the master announces its game
    let out = master.receive_message(&discover_msg, &client_addr, 10);
    assert_eq!(out.len(), 1);
    assert_eq!(out[0].addr, client_addr);
    let announcement = decode(&out[0].bytes).unwrap();
    match &announcement.payload {
        Payload::Announcement { games } => {
            assert_eq!(games.len(), 1);
            assert_eq!(games[0].game_name, "G");
            assert!(games[0].can_join);
            assert_eq!(games[0].config, config());
        }
        _ => panic!("an announcement was expected"),
    }

    // the client asks to join
    let join = match joining.on_message(&announcement, 20) {
        JoinStep::Send(out) => {
            assert_eq!(out.len(), 1);
            assert_eq!(out[0].addr, master_addr);
            decode(&out[0].bytes).unwrap()
        }
        _ => panic!("the join message was expected"),
    };
    assert_eq!(join.msg_seq, 0);
    assert_eq!(joining.config, Some(config()));

    // the master admits the player and gives it the id 1
    let out = master.receive_message(&join, &client_addr, 30);
    assert_eq!(out.len(), 1);
    let ack = decode(&out[0].bytes).unwrap();
    assert!(matches!(ack.payload, Payload::Ack));
    assert_eq!(ack.receiver_id, Some(1));
    assert_eq!(master.game.players.len(), 1);
    assert_eq!(master.game.snakes.len(), 1);
    assert_eq!(master.game.snakes[0].body.len(), 2);
    assert_eq!(master.peers.len(), 1);
    assert_eq!(master.peers[0].addr, client_addr);

    // the client has joined
    let mut client = match joining.on_message(&ack, 40) {
        JoinStep::Done(client) => client,
        _ => panic!("the client was expected"),
    };
    assert_eq!(client.id, 1);
    assert_eq!(client.role, NodeRole::NORMAL);
    assert_eq!(client.master, master_addr);

    // within two tick periods the client is told a state
    assert!(master.do_state(499).is_empty());
    let out = master.do_state(500);
    assert!(500 < 2 * config().state_delay_ms as u64);
    assert_eq!(out.len(), 1);
    assert_eq!(out[0].addr, client_addr);
    let state = decode(&out[0].bytes).unwrap();
    assert!(matches!(state.payload, Payload::State { .. }));
    assert_eq!(state.receiver_id, Some(1));
    let replies = client.receive(state, 510);
    assert_eq!(replies.len(), 1);
    assert!(matches!(decode(&replies[0].bytes).unwrap().payload, Payload::Ack));
    assert_eq!(client.game.snakes.len(), 1);
    assert_eq!(client.game.food.len(), 1);
    assert_eq!(client.game.players.len(), 1);
    assert_eq!(client.game.world, master.game.world);
}

#[test]
fn join_fails_without_the_game() {
    let mut joining =
        Joining::new(addr(9), String::from("Other"), String::from("Player"), NodeRole::NORMAL);
    let announcement = GameMessage {
        msg_seq: 0,
        sender_id: Some(0),
        receiver_id: None,
        payload: Payload::Announcement {
            games: vec![GameAnnouncement {
                players: vec![],
                config: config(),
                can_join: true,
                game_name: String::from("G"),
            }],
        },
    };
    match joining.on_message(&announcement, 0) {
        JoinStep::Failed(e) => {
            assert_eq!(e, JoinError::NoSuchGame);
            assert_eq!(e.message(), "No game with this name was found");
        }
        _ => panic!("a failure was expected"),
    }
}

#[test]
fn join_fails_on_anything_unexpected() {
    let mut joining =
        Joining::new(addr(9), String::from("G"), String::from("Player"), NodeRole::NORMAL);
    let ack = GameMessage { msg_seq: 0, sender_id: None, receiver_id: Some(1), payload: Payload::Ack };
    match joining.on_message(&ack, 0) {
        JoinStep::Failed(e) => {
            assert_eq!(e, JoinError::Unexpected);
            assert_eq!(e.message(), "Unexpected message from server");
        }
        _ => panic!("a failure was expected"),
    }
    joining.config = Some(config());
    let ping = GameMessage { msg_seq: 0, sender_id: None, receiver_id: None, payload: Payload::Ping };
    assert!(matches!(joining.on_message(&ping, 0), JoinStep::Failed(JoinError::Unexpected)));
}

#[test]
fn join_fails_on_a_game_without_a_board() {
    let mut joining =
        Joining::new(addr(9), String::from("G"), String::from("Player"), NodeRole::NORMAL);
    joining.config = Some(Config { width: 0, height: 4, food_static: 0, state_delay_ms: 10 });
    let ack = GameMessage { msg_seq: 0, sender_id: None, receiver_id: Some(1), payload: Payload::Ack };
    match joining.on_message(&ack, 0) {
        JoinStep::Failed(e) => {
            assert_eq!(e, JoinError::InvalidConfig);
            assert_eq!(e.message(), "The game has no board");
        }
        _ => panic!("a failure was expected"),
    }
}

#[test]
fn players_are_recorded_with_the_role_they_asked_for() {
    let mut s = Server::new(config(), String::from("G"), 0);
    s.receive_with(&join_message(NodeRole::VIEWER), &addr(1), 0, None);
    s.receive_with(&join_message(NodeRole::NORMAL), &addr(2), 0, room(3, 3));
    s.receive_with(&join_message(NodeRole::NORMAL), &addr(3), 0, room(7, 7));
    let roles: Vec<NodeRole> = s.game.players.iter().map(|p| p.role).collect();
    assert_eq!(roles, vec![NodeRole::VIEWER, NodeRole::NORMAL, NodeRole::NORMAL]);
    let ids: Vec<i32> = s.game.players.iter().map(|p| p.id).collect();
    assert_eq!(ids, vec![1, 2, 3]);
    assert_eq!(s.player_id, 4);
    assert_eq!(s.game.snakes.len(), 2);
    assert_eq!(s.game.snakes[0].player_id, 2);
    assert_eq!(s.game.snakes[0].body, vec![Coord::new(2, 3), Coord::new(3, 3)]);
    assert_eq!(s.game.snakes[0].direction, Direction::RIGHT);
    assert_eq!(s.game.players[1].ip_address, addr(2));
}

#[test]
fn join_without_room_is_answered_with_an_error() {
    let tiny = Config { width: 1, height: 1, food_static: 0, state_delay_ms: 500 };
    let mut s = Server::new(tiny, String::from("G"), 0);
    assert!(s.game.get_free_coord5x5().is_none());
    let out = s.receive_message(&join_message(NodeRole::NORMAL), &addr(1), 0);
    let msgs = decoded(&out);
    assert_eq!(msgs.len(), 2);
    assert!(matches!(msgs[0].payload, Payload::Ack));
    assert_eq!(msgs[0].receiver_id, Some(1));
    match &msgs[1].payload {
        Payload::Error { error_message } => assert_eq!(error_message, "no available space for snake"),
        _ => panic!("an error was expected"),
    }
    assert!(s.game.players.is_empty());
    assert!(s.peers.is_empty());
    assert_eq!(s.player_id, 2);
    // a viewer needs no room
    let out = s.receive_message(&join_message(NodeRole::VIEWER), &addr(1), 0);
    assert_eq!(out.len(), 1);
    assert_eq!(s.game.players.len(), 1);
    assert_eq!(s.game.players[0].id, 2);
}

#[test]
fn steer_never_turns_a_snake_right_round() {
    let mut s = master_with_player();
    assert_eq!(s.game.snakes[0].direction, Direction::RIGHT);
    let steer = |d| from_client(1, Payload::Steer { direction: d });
    let out = s.receive_message(&steer(Direction::LEFT), &addr(1), 5);
    assert_eq!(out.len(), 1);
    assert_eq!(s.game.snakes[0].direction, Direction::RIGHT);
    s.receive_message(&steer(Direction::UP), &addr(1), 6);
    assert_eq!(s.game.snakes[0].direction, Direction::UP);
    s.receive_message(&steer(Direction::DOWN), &addr(1), 7);
    assert_eq!(s.game.snakes[0].direction, Direction::UP);
    s.receive_message(&steer(Direction::UP), &addr(1), 8);
    assert_eq!(s.game.snakes[0].direction, Direction::UP);
    assert_eq!(s.peers[0].channel.last_seen_time, 8);
}

#[test]
fn steer_of_an_unknown_sender_is_dropped() {
    let mut s = master_with_player();
    let out = s.receive_message(&from_client(1, Payload::Steer { direction: Direction::UP }), &addr(7), 5);
    assert!(out.is_empty());
    assert_eq!(s.game.snakes[0].direction, Direction::RIGHT);
}

#[test]
fn viewer_cannot_steer() {
    let mut s = master_with_player();
    s.game.players[0].role = NodeRole::VIEWER;
    s.receive_message(&from_client(1, Payload::Steer { direction: Direction::UP }), &addr(1), 5);
    assert_eq!(s.game.snakes[0].direction, Direction::RIGHT);
}

#[test]
fn ping_is_acknowledged() {
    let mut s = master_with_player();
    let out = s.receive_message(&from_client(41, Payload::Ping), &addr(1), 77);
    let msgs = decoded(&out);
    assert_eq!(msgs.len(), 1);
    assert!(matches!(msgs[0].payload, Payload::Ack));
    assert_eq!(msgs[0].msg_seq, 41);
    assert_eq!(msgs[0].sender_id, Some(0));
    assert_eq!(msgs[0].receiver_id, Some(1));
    assert_eq!(s.peers[0].channel.last_seen_time, 77);
}

#[test]
fn state_and_announcement_are_ignored_by_the_master() {
    let mut s = master_with_player();
    let state = GameState { state_order: 0, snakes: vec![], foods: vec![], players: vec![] };
    assert!(s.receive_message(&from_client(1, Payload::State { state }), &addr(1), 50).is_empty());
    assert!(s
        .receive_message(&from_client(1, Payload::Announcement { games: vec![] }), &addr(1), 50)
        .is_empty());
    assert_eq!(s.peers[0].channel.last_seen_time, 0);
    assert_eq!(s.game.snakes.len(), 1);
}

#[test]
fn error_is_acknowledged() {
    let mut s = master_with_player();
    let out = s.receive_message(
        &from_client(5, Payload::Error { error_message: String::from("oops") }),
        &addr(1),
        9,
    );
    assert_eq!(out.len(), 1);
    assert!(matches!(decode(&out[0].bytes).unwrap().payload, Payload::Ack));
}

#[test]
fn ack_clears_what_waits() {
    let mut s = master_with_player();
    let out = s.do_state(500);
    assert_eq!(out.len(), 1);
    assert_eq!(s.peers[0].channel.pending.len(), 1);
    let seq = decode(&out[0].bytes).unwrap().msg_seq;
    let out = s.receive_message(&from_client(seq, Payload::Ack), &addr(1), 520);
    assert!(out.is_empty());
    assert!(s.peers[0].channel.pending.is_empty());
    assert_eq!(s.peers[0].channel.last_seen_time, 520);
}

#[test]
fn player_turns_viewer_and_back() {
    let mut s = master_with_player();
    let to = |role| from_client(3, Payload::RoleChange { sender_role: Some(role), receiver_role: None });
    let out = s.receive_message(&to(NodeRole::VIEWER), &addr(1), 5);
    assert_eq!(out.len(), 1);
    assert_eq!(s.game.players[0].role, NodeRole::VIEWER);
    assert_eq!(s.game.snakes[0].state, SnakeState::ZOMBIE);
    // the snake is still on the board: the player gets it back
    s.receive_message(&to(NodeRole::NORMAL), &addr(1), 6);
    assert_eq!(s.game.players[0].role, NodeRole::NORMAL);
    assert_eq!(s.game.snakes[0].state, SnakeState::ALIVE);
    assert_eq!(s.game.snakes.len(), 1);
    // asking for the role that one has changes nothing
    s.receive_message(&to(NodeRole::NORMAL), &addr(1), 7);
    assert_eq!(s.game.snakes.len(), 1);
}

#[test]
fn viewer_without_snake_gets_a_new_one() {
    let mut s = Server::new(config(), String::from("G"), 0);
    s.receive_with(&join_message(NodeRole::VIEWER), &addr(1), 0, None);
    assert!(s.game.snakes.is_empty());
    let ask = from_client(
        3,
        Payload::RoleChange { sender_role: Some(NodeRole::NORMAL), receiver_role: None },
    );
    // no room: the viewer stays a viewer
    s.receive_with(&ask, &addr(1), 5, None);
    assert_eq!(s.game.players[0].role, NodeRole::VIEWER);
    s.receive_with(&ask, &addr(1), 6, room(4, 4));
    assert_eq!(s.game.players[0].role, NodeRole::NORMAL);
    assert_eq!(s.game.snakes.len(), 1);
    assert_eq!(s.game.snakes[0].player_id, 1);
    assert_eq!(s.game.world[4][4], WorldCell::Snake);
    assert_eq!(s.game.world[4][3], WorldCell::Snake);
}

#[test]
fn dead_player_is_made_a_viewer_and_told_so() {
    let mut s = Server::new(Config { width: 10, height: 10, food_static: 0, state_delay_ms: 500 }, String::from("G"), 0);
    s.receive_with(&join_message(NodeRole::NORMAL), &addr(1), 0, room(5, 5));
    let out = s.after_tick(&vec![1], 500);
    let msgs = decoded(&out);
    assert_eq!(msgs.len(), 2);
    match &msgs[0].payload {
        Payload::RoleChange { sender_role, receiver_role } => {
            assert_eq!(*sender_role, Some(NodeRole::MASTER));
            assert_eq!(*receiver_role, Some(NodeRole::VIEWER));
        }
        _ => panic!("a role change was expected"),
    }
    assert_eq!(msgs[0].receiver_id, Some(1));
    assert_eq!(msgs[0].msg_seq, 0);
    assert!(matches!(msgs[1].payload, Payload::State { .. }));
    assert_eq!(msgs[1].msg_seq, 1);
    assert_eq!(s.game.players[0].role, NodeRole::VIEWER);
    assert_eq!(s.peers[0].channel.pending.len(), 2);
    assert_eq!(s.game_time, 500);
}

#[test]
fn master_advertises_once_a_second() {
    let mut s = master_with_player();
    let group = String::from("239.192.0.4:9192");
    assert!(s.do_multicast(999, &group).is_empty());
    let out = s.do_multicast(1000, &group);
    assert_eq!(out.len(), 1);
    assert_eq!(out[0].addr, group);
    let m = decode(&out[0].bytes).unwrap();
    assert_eq!(m.msg_seq, 0);
    match &m.payload {
        Payload::Announcement { games } => {
            assert_eq!(games[0].game_name, "G");
            assert_eq!(games[0].players.len(), 1);
            assert!(games[0].can_join);
        }
        _ => panic!("an announcement was expected"),
    }
    assert_eq!(s.seq, 1);
    assert_eq!(s.multicast_time, 1000);
    assert!(s.do_multicast(1999, &group).is_empty());
    assert_eq!(s.do_multicast(2000, &group).len(), 1);
}

#[test]
fn advertisement_leaves_out_the_oldest_players() {
    let mut s = Server::new(config(), String::from("G"), 0);
    for i in 0..60 {
        s.game.players.push(GamePlayer {
            name: format!("a player with a long name {}", i),
            id: i,
            ip_address: addr(i as u16),
            role: NodeRole::VIEWER,
            player_type: PlayerType::HUMAN,
            score: 0,
        });
    }
    let m = s.get_announcement();
    let bytes = encode(&m).expect("the advertisement fits into a datagram");
    assert!(bytes.len() <= 1024);
    match &m.payload {
        Payload::Announcement { games } => {
            let listed = &games[0].players;
            assert!(!listed.is_empty());
            assert!(listed.len() < 60);
            // the latest players are the ones that are listed
            assert_eq!(listed.last().unwrap().id, 59);
            assert_eq!(listed[0].id, 60 - listed.len() as i32);
        }
        _ => panic!("an announcement was expected"),
    }
}

#[test]
fn state_is_capped_to_a_datagram() {
    let state = GameState {
        state_order: 1,
        snakes: vec![Snake {
            player_id: 1,
            body: vec![Coord::new(0, 0), Coord::new(1, 0)],
            direction: Direction::RIGHT,
            state: SnakeState::ALIVE,
        }],
        foods: (0..200).map(|i| Coord::new(i, 1)).collect(),
        players: vec![],
    };
    let m = GameMessage { msg_seq: 0, sender_id: Some(0), receiver_id: Some(1), payload: Payload::State { state } };
    assert!(encode(&m).is_none());
    let capped = cap_state(m);
    let bytes = encode(&capped).expect("the capped state fits into a datagram");
    assert!(bytes.len() <= 1024);
    match &capped.payload {
        Payload::State { state } => {
            assert_eq!(state.snakes.len(), 1);
            assert!(state.foods.len() < 200);
            // one more food would not have fitted
            assert!(bytes.len() + 8 > 1024);
            assert_eq!(state.foods[0], Coord::new(0, 1));
        }
        _ => panic!("a state was expected"),
    }
}

#[test]
fn silent_peer_is_given_up() {
    let mut s = master_with_player();
    s.check_timeout(400);
    assert_eq!(s.peers.len(), 1);
    s.check_timeout(401);
    assert!(s.peers.is_empty());
    assert!(s.game.players.is_empty());
    // the snake stays as it is
    assert_eq!(s.game.snakes.len(), 1);
    assert_eq!(s.game.snakes[0].state, SnakeState::ALIVE);
    assert_eq!(s.game.snakes[0].body, vec![Coord::new(4, 5), Coord::new(5, 5)]);
}

#[test]
fn master_retransmits_to_every_peer() {
    let mut s = Server::new(config(), String::from("G"), 0);
    s.receive_with(&join_message(NodeRole::VIEWER), &addr(1), 0, None);
    s.receive_with(&join_message(NodeRole::VIEWER), &addr(2), 0, None);
    let first = s.get_state(0);
    assert_eq!(first.len(), 2);
    assert!(s.check_pending(50).is_empty());
    let again = s.check_pending(51);
    assert_eq!(again.len(), 2);
    assert_eq!(again[0].addr, addr(1));
    assert_eq!(again[1].addr, addr(2));
    assert_eq!(again[0].bytes, first[0].bytes);
    assert_eq!(again[1].bytes, first[1].bytes);
}

#[test]
fn local_player_enters_as_master() {
    let mut s = Server::new(config(), String::from("G"), 0);
    s.add_local_player(&String::from("Admin"), &String::from("127.0.0.1:48668"));
    assert_eq!(s.game.players.len(), 1);
    assert_eq!(s.game.players[0].id, 0);
    assert_eq!(s.game.players[0].role, NodeRole::MASTER);
    assert_eq!(s.game.players[0].name, "Admin");
    assert_eq!(s.game.snakes.len(), 1);
    assert_eq!(s.game.snakes[0].player_id, 0);
    // the first site of an empty board
    assert_eq!(*s.game.snakes[0].body.last().unwrap(), Coord::new(2, 2));
    assert!(s.peers.is_empty());
    let d = s.game.snakes[0].direction;
    assert!(!s.steer_own(d.opposite()));
    assert_eq!(s.game.snakes[0].direction, d);
}

fn follower() -> Client {
    Client::new(config(), String::from("Player"), 1, NodeRole::NORMAL, addr(9), 0)
}

fn snapshot() -> GameState {
    GameState {
        state_order: 4,
        snakes: vec![Snake {
            player_id: 1,
            body: vec![Coord::new(1, 1), Coord::new(2, 1)],
            direction: Direction::RIGHT,
            state: SnakeState::ALIVE,
        }],
        foods: vec![Coord::new(5, 5)],
        players: vec![GamePlayer {
            name: String::from("Player"),
            id: 1,
            ip_address: addr(1),
            role: NodeRole::NORMAL,
            player_type: PlayerType::HUMAN,
            score: 20,
        }],
    }
}

fn from_master(seq: i64, payload: Payload) -> GameMessage {
    GameMessage { msg_seq: seq, sender_id: Some(0), receiver_id: Some(1), payload }
}

#[test]
fn follower_draws_the_state_and_acknowledges_it() {
    let mut c = follower();
    let out = c.receive(from_master(3, Payload::State { state: snapshot() }), 10);
    let msgs = decoded(&out);
    assert_eq!(msgs.len(), 1);
    assert!(matches!(msgs[0].payload, Payload::Ack));
    assert_eq!(msgs[0].msg_seq, 3);
    assert_eq!(out[0].addr, addr(9));
    assert_eq!(c.game.snakes.len(), 1);
    assert_eq!(c.game.food, vec![Coord::new(5, 5)]);
    assert_eq!(c.game.players[0].score, 20);
    assert_eq!(c.game.world[1][1], WorldCell::Snake);
    assert_eq!(c.game.world[1][2], WorldCell::Snake);
    assert_eq!(c.game.world[5][5], WorldCell::Food);
    assert_eq!(c.channel.last_applied_seq, 3);
}

#[test]
fn follower_passes_over_a_state_that_is_late() {
    let mut c = follower();
    c.receive(from_master(3, Payload::State { state: snapshot() }), 10);
    let mut late = snapshot();
    late.foods = vec![];
    let out = c.receive(from_master(2, Payload::State { state: late }), 11);
    // acknowledged all the same
    assert_eq!(out.len(), 1);
    assert_eq!(c.game.food, vec![Coord::new(5, 5)]);
    assert_eq!(c.channel.last_applied_seq, 3);
}

#[test]
fn drawing_a_state_twice_changes_nothing() {
    let mut c = follower();
    c.game.apply_state(snapshot(), 0);
    let once = (c.game.world.clone(), c.game.food.clone(), c.game.snakes[0].body.clone(), c.game.order);
    c.game.apply_state(snapshot(), 0);
    let twice = (c.game.world.clone(), c.game.food.clone(), c.game.snakes[0].body.clone(), c.game.order);
    assert_eq!(once, twice);
    assert_eq!(c.game.snakes.len(), 1);
    assert_eq!(c.game.players.len(), 1);
}

#[test]
fn drawing_folds_positions_onto_the_board() {
    let mut c = follower();
    let mut s = snapshot();
    s.snakes[0].body = vec![Coord::new(-1, 0), Coord::new(10, 23)];
    s.foods = vec![Coord::new(-11, -1)];
    c.game.apply_state(s, 0);
    assert_eq!(c.game.world[0][9], WorldCell::Snake);
    assert_eq!(c.game.world[3][0], WorldCell::Snake);
    assert_eq!(c.game.world[9][9], WorldCell::Food);
    // the lists keep the positions that are on the board
    assert_eq!(c.game.snakes[0].body, vec![Coord::new(9, 0), Coord::new(0, 3)]);
    assert_eq!(c.game.food, vec![Coord::new(9, 9)]);
}

#[test]
fn food_lies_on_top_of_a_snake_when_drawn() {
    let mut c = follower();
    let mut s = snapshot();
    s.foods = vec![Coord::new(1, 1)];
    c.game.apply_state(s, 0);
    assert_eq!(c.game.world[1][1], WorldCell::Food);
    assert_eq!(c.game.world[1][2], WorldCell::Snake);
}

#[test]
fn follower_takes_the_role_that_the_master_names() {
    let mut c = follower();
    let change = |seq, role| {
        from_master(seq, Payload::RoleChange { sender_role: Some(NodeRole::MASTER), receiver_role: role })
    };
    let out = c.receive(change(5, Some(NodeRole::VIEWER)), 10);
    assert_eq!(out.len(), 1);
    assert_eq!(c.role, NodeRole::VIEWER);
    // a role change that is late is acknowledged and passed over
    let out = c.receive(change(4, Some(NodeRole::NORMAL)), 11);
    assert_eq!(out.len(), 1);
    assert_eq!(c.role, NodeRole::VIEWER);
    c.receive(change(6, None), 12);
    assert_eq!(c.role, NodeRole::VIEWER);
    assert_eq!(c.channel.last_applied_seq, 6);
}

#[test]
fn follower_sends_what_its_user_asks() {
    let mut c = follower();
    let out = c.on_input(InputEvent::Arrow(Direction::UP), 1);
    let m = decode(&out[0].bytes).unwrap();
    assert!(matches!(m.payload, Payload::Steer { direction: Direction::UP }));
    assert_eq!(m.msg_seq, 0);
    assert_eq!(m.sender_id, Some(1));
    assert_eq!(out[0].addr, addr(9));
    let out = c.on_input(InputEvent::BecomeViewer, 2);
    let m = decode(&out[0].bytes).unwrap();
    assert!(matches!(
        m.payload,
        Payload::RoleChange { sender_role: Some(NodeRole::VIEWER), receiver_role: None }
    ));
    assert_eq!(m.msg_seq, 1);
    let out = c.on_input(InputEvent::BecomePlayer, 3);
    let m = decode(&out[0].bytes).unwrap();
    assert!(matches!(
        m.payload,
        Payload::RoleChange { sender_role: Some(NodeRole::NORMAL), receiver_role: None }
    ));
    assert!(c.on_input(InputEvent::Idle, 4).is_empty());
    assert!(c.on_input(InputEvent::Quit, 5).is_empty());
    assert_eq!(c.channel.pending.len(), 3);
    // an acknowledgement takes one of them off the list
    c.receive(from_master(1, Payload::Ack), 6);
    assert_eq!(c.channel.pending.len(), 2);
    assert_eq!(c.channel.last_seen_time, 6);
}

#[test]
fn follower_pings_a_silent_master() {
    let mut c = follower();
    assert!(c.check_ping(50).is_empty());
    let out = c.check_ping(51);
    assert_eq!(out.len(), 1);
    assert!(matches!(decode(&out[0].bytes).unwrap().payload, Payload::Ping));
    // one ping at a time
    assert!(c.check_ping(200).is_empty());
    assert_eq!(c.check_pending(102).len(), 1);
    assert!(!c.master_lost(400));
    assert!(c.master_lost(401));
}

#[test]
fn retransmission_and_liveness_of_a_follower() {
    let mut c = follower();
    let first = c.send_steer(Direction::LEFT, 0);
    assert_eq!(first.len(), 1);
    let mut retransmissions = 0;
    let mut now = 0;
    while !c.channel.pending.is_empty() {
        now += 60;
        let out = c.check_pending(now);
        retransmissions += out.len();
        for d in &out {
            assert_eq!(d.bytes, first[0].bytes);
        }
    }
    assert_eq!(retransmissions, 5);
    assert_eq!(now, 300);
    assert!(c.master_lost(now + 400));
}

#[test]
fn succession_without_a_deputy_ends_the_game() {
    let mut c = follower();
    let mut s = snapshot();
    s.players[0].role = NodeRole::VIEWER;
    s.players.push(GamePlayer {
        name: String::from("Admin"),
        id: 0,
        ip_address: addr(9),
        role: NodeRole::MASTER,
        player_type: PlayerType::HUMAN,
        score: 0,
    });
    c.game.apply_state(s, 0);
    assert!(matches!(c.play(), Succession::Terminate));
}

#[test]
fn first_normal_player_serves_as_the_deputy() {
    let other = GamePlayer {
        name: String::from("Other"),
        id: 5,
        ip_address: addr(2),
        role: NodeRole::NORMAL,
        player_type: PlayerType::HUMAN,
        score: 0,
    };
    // the follower's own player was admitted first
    let mut c = follower();
    let mut s = snapshot();
    s.players.push(other.clone());
    c.game.apply_state(s, 0);
    assert!(matches!(c.play(), Succession::BecomeMaster));
    // another player was admitted first
    let mut c = follower();
    let mut s = snapshot();
    s.players.insert(0, other);
    c.game.apply_state(s, 0);
    match c.play() {
        Succession::Reconnect(to) => assert_eq!(to, addr(2)),
        _ => panic!("the first normal player was expected"),
    }
}

#[test]
fn succession_turns_to_the_deputy() {
    let mut c = follower();
    let mut s = snapshot();
    s.players.push(GamePlayer {
        name: String::from("Other"),
        id: 2,
        ip_address: addr(2),
        role: NodeRole::DEPUTY,
        player_type: PlayerType::HUMAN,
        score: 0,
    });
    c.game.apply_state(s, 0);
    match c.play() {
        Succession::Reconnect(to) => assert_eq!(to, addr(2)),
        _ => panic!("a deputy was expected"),
    }
    c.reconnect(addr(2), 900);
    assert_eq!(c.master, addr(2));
    assert_eq!(c.channel.last_seen_time, 900);
    assert_eq!(c.channel.next_seq, 0);
}

#[test]
fn deputy_takes_over() {
    let mut c = follower();
    let mut s = snapshot();
    s.players[0].role = NodeRole::DEPUTY;
    s.players.push(GamePlayer {
        name: String::from("Admin"),
        id: 0,
        ip_address: addr(9),
        role: NodeRole::MASTER,
        player_type: PlayerType::HUMAN,
        score: 0,
    });
    s.players.push(GamePlayer {
        name: String::from("Other"),
        id: 6,
        ip_address: addr(2),
        role: NodeRole::NORMAL,
        player_type: PlayerType::HUMAN,
        score: 0,
    });
    c.game.apply_state(s, 0);
    assert!(matches!(c.play(), Succession::BecomeMaster));
    let master = c.become_master(String::from("G"), 1000);
    assert_eq!(master.id, 1);
    assert_eq!(master.name, "G");
    let roles: Vec<NodeRole> = master.game.players.iter().map(|p| p.role).collect();
    assert_eq!(roles, vec![NodeRole::MASTER, NodeRole::VIEWER, NodeRole::NORMAL]);
    let peers: Vec<(String, i32)> = master.peers.iter().map(|p| (p.addr.clone(), p.player_id)).collect();
    assert_eq!(peers, vec![(addr(9), 0), (addr(2), 6)]);
    assert_eq!(master.player_id, 7);
    assert_eq!(master.game.snakes.len(), 1);
    assert_eq!(master.game.food, vec![Coord::new(5, 5)]);
    assert_eq!(master.game.order, 0);
    assert_eq!(master.game_time, 1000);
}

#[test]
fn join_fails_when_the_request_fits_into_no_datagram() {
    let mut joining =
        Joining::new(addr(9), String::from("G"), "n".repeat(2000), NodeRole::NORMAL);
    let announcement = GameMessage {
        msg_seq: 0,
        sender_id: Some(0),
        receiver_id: None,
        payload: Payload::Announcement {
            games: vec![GameAnnouncement {
                players: vec![],
                config: config(),
                can_join: true,
                game_name: String::from("G"),
            }],
        },
    };
    match joining.on_message(&announcement, 0) {
        JoinStep::Failed(e) => {
            assert_eq!(e, JoinError::TooLong);
            assert_eq!(e.message(), "The names are too long for a datagram");
        }
        _ => panic!("a failure was expected"),
    }
    assert_eq!(joining.config, None);
}

#[test]
fn bytes_that_are_no_message_are_passed_over() {
    let mut s = master_with_player();
    let garbage = vec![1, 2, 3];
    assert!(s.receive_datagram(&garbage, &addr(1), 50).is_empty());
    assert_eq!(s.peers[0].channel.last_seen_time, 0);
    assert_eq!(s.game.players.len(), 1);
    let ping = encode(&from_client(7, Payload::Ping)).unwrap();
    let out = s.receive_datagram(&ping, &addr(1), 60);
    assert_eq!(out.len(), 1);
    assert_eq!(decode(&out[0].bytes).unwrap().msg_seq, 7);
    assert_eq!(s.peers[0].channel.last_seen_time, 60);

    let mut c = follower();
    assert!(c.receive_datagram(&garbage, 50).is_empty());
    assert_eq!(c.channel.last_applied_seq, -1);
    let state = encode(&from_master(3, Payload::State { state: snapshot() })).unwrap();
    let out = c.receive_datagram(&state, 60);
    assert_eq!(out.len(), 1);
    assert_eq!(c.game.snakes.len(), 1);
}

#[test]
fn join_of_a_player_is_admitted_where_the_board_has_a_site() {
    let mut s = Server::new(config(), String::from("G"), 0);
    let out = s.receive_message(&join_message(NodeRole::NORMAL), &addr(1), 0);
    assert_eq!(out.len(), 1);
    assert_eq!(s.game.players.len(), 1);
    assert_eq!(s.game.players[0].id, 1);
    assert_eq!(s.game.players[0].role, NodeRole::NORMAL);
    assert_eq!(s.game.players[0].score, 0);
    assert_eq!(s.game.players[0].ip_address, addr(1));
    assert_eq!(s.game.snakes.len(), 1);
    assert_eq!(s.game.snakes[0].player_id, 1);
    assert_eq!(s.game.snakes[0].body.len(), 2);
    assert_eq!(s.game.snakes[0].state, SnakeState::ALIVE);
    // the head is on the first site of the empty board
    assert_eq!(s.game.snakes[0].body[1], Coord::new(2, 2));
}

#[test]
fn player_entered_under_an_id_takes_the_place_of_the_one_that_had_it() {
    let mut s = master_with_player();
    let mut again = s.game.players[0].clone();
    again.name = String::from("Again");
    let other = GamePlayer {
        name: String::from("Other"),
        id: 8,
        ip_address: addr(3),
        role: NodeRole::VIEWER,
        player_type: PlayerType::ROBOT,
        score: 0,
    };
    s.game.add_player(other);
    s.game.add_player(again);
    let listed: Vec<(i32, String)> = s.game.players.iter().map(|p| (p.id, p.name.clone())).collect();
    assert_eq!(listed, vec![(8, String::from("Other")), (1, String::from("Again"))]);
    s.game.remove_player(8);
    assert_eq!(s.game.players.len(), 1);
}

#[test]
fn node_that_joins_again_takes_the_place_of_its_peer() {
    let mut s = Server::new(config(), String::from("G"), 0);
    s.receive_with(&join_message(NodeRole::VIEWER), &addr(1), 0, None);
    s.receive_with(&join_message(NodeRole::VIEWER), &addr(2), 0, None);
    s.receive_with(&join_message(NodeRole::VIEWER), &addr(1), 5, None);
    let peers: Vec<(String, i32)> = s.peers.iter().map(|p| (p.addr.clone(), p.player_id)).collect();
    assert_eq!(peers, vec![(addr(2), 2), (addr(1), 3)]);
    assert_eq!(s.game.players.len(), 3);
}

#[test]
fn follower_that_was_made_deputy_takes_over() {
    let mut c = follower();
    let change = from_master(
        2,
        Payload::RoleChange { sender_role: Some(NodeRole::MASTER), receiver_role: Some(NodeRole::DEPUTY) },
    );
    c.receive(change, 10);
    assert_eq!(c.role, NodeRole::DEPUTY);
    assert!(matches!(c.play(), Succession::BecomeMaster));
}
