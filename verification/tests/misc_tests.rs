use snakes::base::{wrap_i32, Config, Coord, Direction, GameState, Snake, SnakeState, WorldCell};
use snakes::discovery::Browser;
use snakes::ring::{clamp_selected, ring_next, ring_prev};
use snakes::input::{decimal_string, Input, Validator};
use snakes::message::{GameAnnouncement, GameMessage, Payload};
use snakes::snapshot::fold_coord;
use snakes::tick::step_from;
use snakes::world::Game;

fn config(width: i32, height: i32) -> Config {
    Config { width, height, food_static: 0, state_delay_ms: 500 }
}

#[test]
fn coord_new_keeps_its_arguments() {
    let c = Coord::new(3, -4);
    assert_eq!(c.x, 3);
    assert_eq!(c.y, -4);
}

#[test]
fn wrap_is_the_remainder_on_the_ring() {
    assert_eq!(wrap_i32(0, 5), 0);
    assert_eq!(wrap_i32(4, 5), 4);
    assert_eq!(wrap_i32(5, 5), 0);
    assert_eq!(wrap_i32(13, 5), 3);
    assert_eq!(wrap_i32(-1, 5), 4);
    assert_eq!(wrap_i32(-5, 5), 0);
    assert_eq!(wrap_i32(-6, 5), 4);
    assert_eq!(wrap_i32(i32::MIN, 10), 2);
    assert_eq!(wrap_i32(i32::MAX, 10), 7);
    assert_eq!(wrap_i32(i32::MIN, i32::MAX), i32::MAX - 1);
    assert_eq!(wrap_i32(-7, 1), 0);
}

#[test]
fn fold_puts_a_position_on_the_board() {
    assert_eq!(fold_coord(Coord::new(-1, 12), 10, 5), Coord::new(9, 2));
    assert_eq!(fold_coord(Coord::new(3, 4), 10, 5), Coord::new(3, 4));
}

#[test]
fn step_goes_round_the_torus() {
    assert_eq!(step_from(Coord::new(0, 0), Direction::LEFT, 4, 3), Coord::new(3, 0));
    assert_eq!(step_from(Coord::new(3, 0), Direction::RIGHT, 4, 3), Coord::new(0, 0));
    assert_eq!(step_from(Coord::new(1, 0), Direction::UP, 4, 3), Coord::new(1, 2));
    assert_eq!(step_from(Coord::new(1, 2), Direction::DOWN, 4, 3), Coord::new(1, 0));
    assert_eq!(step_from(Coord::new(1, 1), Direction::DOWN, 4, 3), Coord::new(1, 2));
    assert_eq!(step_from(Coord::new(0, 0), Direction::UP, 1, 1), Coord::new(0, 0));
}

#[test]
fn directions_have_opposites() {
    assert_eq!(Direction::UP.opposite(), Direction::DOWN);
    assert_eq!(Direction::DOWN.opposite(), Direction::UP);
    assert_eq!(Direction::LEFT.opposite(), Direction::RIGHT);
    assert_eq!(Direction::RIGHT.opposite(), Direction::LEFT);
}

#[test]
fn config_needs_a_board() {
    assert!(config(1, 1).is_valid());
    assert!(!config(0, 1).is_valid());
    assert!(!config(1, 0).is_valid());
    assert!(!config(-3, 4).is_valid());
}

#[test]
fn spawn_fails_on_a_board_of_one_cell() {
    let game = Game::new(config(1, 1));
    assert_eq!(game.find_spawn_site(), None);
    assert_eq!(game.get_free_coord5x5(), None);
}

#[test]
fn spawn_fails_on_a_board_that_is_too_narrow() {
    let game = Game::new(config(4, 10));
    assert_eq!(game.get_free_coord5x5(), None);
    let game = Game::new(config(10, 4));
    assert_eq!(game.get_free_coord5x5(), None);
}

#[test]
fn spawn_takes_the_first_site() {
    let game = Game::new(config(5, 5));
    assert_eq!(game.find_spawn_site(), Some(Coord::new(2, 2)));
    let (head, tail, dir) = game.get_free_coord5x5().unwrap();
    assert_eq!(head, Coord::new(2, 2));
    let options = game.tail_options(head);
    assert_eq!(
        options,
        vec![
            (Coord::new(1, 2), Direction::RIGHT),
            (Coord::new(3, 2), Direction::LEFT),
            (Coord::new(2, 1), Direction::DOWN),
            (Coord::new(2, 3), Direction::UP),
        ]
    );
    assert!(options.contains(&(tail, dir)));
    // the direction points from the tail to the head
    assert_eq!(step_from(tail, dir, 5, 5), head);
}

#[test]
fn spawn_keeps_away_from_snakes() {
    let mut game = Game::new(config(10, 10));
    let snake = Snake {
        player_id: 1,
        body: vec![Coord::new(3, 0), Coord::new(4, 0)],
        direction: Direction::RIGHT,
        state: SnakeState::ALIVE,
    };
    assert!(game.add_snake(snake));
    // the squares round (2, 2) .. (6, 2) touch the snake in row 0
    assert!(!game.is_clear_around(2, 2));
    assert!(!game.is_clear_around(6, 2));
    assert!(game.is_clear_around(7, 2));
    assert_eq!(game.find_spawn_site(), Some(Coord::new(7, 2)));
    let mut game = Game::new(config(10, 10));
    let snake = Snake {
        player_id: 1,
        body: vec![Coord::new(0, 4), Coord::new(9, 4)],
        direction: Direction::LEFT,
        state: SnakeState::ALIVE,
    };
    assert!(game.add_snake(snake));
    assert_eq!(game.find_spawn_site(), Some(Coord::new(3, 2)));
}

#[test]
fn spawn_does_not_put_the_tail_on_food() {
    let mut game = Game::new(config(5, 5));
    assert!(game.add_food_to(Coord::new(1, 2)));
    assert!(game.add_food_to(Coord::new(2, 3)));
    assert_eq!(
        game.tail_options(Coord::new(2, 2)),
        vec![(Coord::new(3, 2), Direction::LEFT), (Coord::new(2, 1), Direction::DOWN)]
    );
    assert!(game.add_food_to(Coord::new(3, 2)));
    assert!(game.add_food_to(Coord::new(2, 1)));
    assert!(game.tail_options(Coord::new(2, 2)).is_empty());
    // the only cell that keeps two cells from every edge has no place for a tail
    assert_eq!(game.find_spawn_site(), None);
    assert_eq!(game.get_free_coord5x5(), None);
}

#[test]
fn snapshot_carries_the_lists() {
    let mut game = Game::new(config(6, 6));
    let snake = Snake {
        player_id: 1,
        body: vec![Coord::new(1, 1), Coord::new(2, 1)],
        direction: Direction::RIGHT,
        state: SnakeState::ALIVE,
    };
    assert!(game.add_snake(snake));
    assert!(game.add_food_to(Coord::new(4, 4)));
    game.update();
    let state: GameState = game.get_state();
    assert_eq!(state.state_order, 1);
    assert_eq!(state.foods, game.food);
    assert_eq!(state.snakes.len(), 1);
    assert_eq!(state.snakes[0].body, vec![Coord::new(2, 1), Coord::new(3, 1)]);
    // a follower that draws the snapshot shows the same board
    let mut follower = Game::new(config(6, 6));
    follower.apply_state(state, 0);
    assert_eq!(follower.world, game.world);
    assert_eq!(follower.food, game.food);
    assert_eq!(follower.order, 0);
}

#[test]
fn rebuilt_game_keeps_what_goes_together() {
    let mut game = Game::new(config(4, 4));
    let a = Snake {
        player_id: 1,
        body: vec![Coord::new(0, 0), Coord::new(1, 0)],
        direction: Direction::RIGHT,
        state: SnakeState::ALIVE,
    };
    let crossing = Snake {
        player_id: 2,
        body: vec![Coord::new(1, 1), Coord::new(1, 0)],
        direction: Direction::UP,
        state: SnakeState::ALIVE,
    };
    let state = GameState {
        state_order: 3,
        snakes: vec![a, crossing],
        foods: vec![Coord::new(0, 0), Coord::new(3, 3), Coord::new(9, 9)],
        players: vec![],
    };
    game.apply_state(state, 0);
    let rebuilt = game.rebuilt();
    assert_eq!(rebuilt.snakes.len(), 1);
    assert_eq!(rebuilt.snakes[0].player_id, 1);
    // the food at (9, 9) was folded onto (1, 1), which is free
    assert_eq!(rebuilt.food, vec![Coord::new(3, 3), Coord::new(1, 1)]);
    assert_eq!(rebuilt.world[0][0], WorldCell::Snake);
    assert_eq!(rebuilt.world[3][3], WorldCell::Food);
}

fn advertisement(names: &[(&str, bool)]) -> GameMessage {
    GameMessage {
        msg_seq: 0,
        sender_id: Some(0),
        receiver_id: None,
        payload: Payload::Announcement {
            games: names
                .iter()
                .map(|&(name, can_join)| GameAnnouncement {
                    players: vec![],
                    config: config(10, 10),
                    can_join,
                    game_name: name.to_string(),
                })
                .collect(),
        },
    }
}

#[test]
fn browser_lists_what_is_advertised() {
    let mut b = Browser::new();
    assert!(b.chosen().is_none());
    let m1 = String::from("10.0.0.1:9000");
    let m2 = String::from("10.0.0.2:9000");
    b.on_message(&advertisement(&[("A", true), ("closed", false)]), &m1, 100);
    b.on_message(&advertisement(&[("A", true)]), &m2, 200);
    b.on_message(&advertisement(&[("B", true)]), &m1, 300);
    let listed: Vec<(String, String, u64)> =
        b.servers.iter().map(|g| (g.name.clone(), g.addr.clone(), g.seen)).collect();
    assert_eq!(
        listed,
        vec![
            (String::from("A"), m1.clone(), 100),
            (String::from("A"), m2.clone(), 200),
            (String::from("B"), m1.clone(), 300),
        ]
    );
    // an advertisement that is repeated is seen anew
    b.on_message(&advertisement(&[("A", true)]), &m1, 900);
    assert_eq!(b.servers.len(), 3);
    assert_eq!(b.servers[0].seen, 900);
    // anything else is passed over
    let ping = GameMessage { msg_seq: 0, sender_id: None, receiver_id: None, payload: Payload::Ping };
    b.on_message(&ping, &m1, 950);
    assert_eq!(b.servers.len(), 3);
    // and so are bytes that are no message
    b.on_datagram(&vec![9, 9], &m1, 960);
    assert_eq!(b.servers.len(), 3);
    let bytes = snakes::codec::encode(&advertisement(&[("C", true)])).unwrap();
    b.on_datagram(&bytes, &m2, 970);
    assert_eq!(b.servers.len(), 4);
    assert_eq!(b.servers[3].name, "C");
}

#[test]
fn browser_drops_what_is_older_than_a_second() {
    let mut b = Browser::new();
    let m = String::from("10.0.0.1:9000");
    b.note(&String::from("A"), &m, 0);
    b.note(&String::from("B"), &m, 500);
    b.note(&String::from("C"), &m, 1000);
    b.selected = 2;
    b.evict(1000);
    assert_eq!(b.servers.len(), 3);
    b.evict(1001);
    let names: Vec<&str> = b.servers.iter().map(|g| g.name.as_str()).collect();
    assert_eq!(names, vec!["B", "C"]);
    // the mark stays on the list
    assert_eq!(b.selected, 1);
    assert_eq!(b.chosen().unwrap().name, "C");
    b.evict(5000);
    assert!(b.servers.is_empty());
    assert_eq!(b.selected, 0);
    assert!(b.chosen().is_none());
}

#[test]
fn browser_mark_goes_round() {
    let mut b = Browser::new();
    let m = String::from("10.0.0.1:9000");
    b.select_next();
    assert_eq!(b.selected, 0);
    b.select_prev();
    assert_eq!(b.selected, 0);
    for name in ["A", "B", "C"] {
        b.note(&String::from(name), &m, 0);
    }
    b.select_next();
    assert_eq!(b.chosen().unwrap().name, "B");
    b.select_next();
    b.select_next();
    assert_eq!(b.selected, 0);
    b.select_prev();
    assert_eq!(b.selected, 2);
    b.select_prev();
    assert_eq!(b.selected, 1);
    assert_eq!(clamp_selected(7, 3), 2);
    assert_eq!(clamp_selected(1, 3), 1);
    assert_eq!(clamp_selected(4, 0), 0);
}

#[test]
fn ring_goes_round() {
    assert_eq!(ring_next(0, 4), 1);
    assert_eq!(ring_next(3, 4), 0);
    assert_eq!(ring_prev(0, 4), 3);
    assert_eq!(ring_prev(2, 4), 1);
    assert_eq!(ring_next(0, 1), 0);
    assert_eq!(ring_prev(0, 1), 0);
    assert_eq!(ring_next(5, 0), 0);
    assert_eq!(ring_prev(5, 0), 0);
    // a mark that is off the list comes back onto it first
    assert_eq!(ring_next(9, 4), 0);
    assert_eq!(ring_prev(9, 4), 2);
    for len in 1..6 {
        for at in 0..len {
            assert_eq!(ring_prev(ring_next(at, len), len), at);
            assert_eq!(ring_next(ring_prev(at, len), len), at);
        }
    }
}

#[test]
fn input_collects_text() {
    let mut input = Input::new("name", Validator::AsciiGraphic);
    assert_eq!(input.name(), "name");
    assert_eq!(input.raw(), "");
    assert_eq!(input.validator(), Validator::AsciiGraphic);
    assert_eq!(input.pop(), None);
    input.push('a');
    input.push('ß');
    input.push('c');
    assert_eq!(input.raw(), "aßc");
    assert_eq!(input.pop(), Some('c'));
    assert_eq!(input.pop(), Some('ß'));
    assert_eq!(input.raw(), "a");
    assert_eq!(input.name(), "name");
}

#[test]
fn input_constructors() {
    let a = Input::new_str_ascii("Server Name");
    assert_eq!(a.raw(), "");
    assert_eq!(a.validator(), Validator::AsciiGraphic);
    let b = Input::new_str_ascii_default("Server Name", "Snake game");
    assert_eq!(b.raw(), "Snake game");
    assert_eq!(b.name(), "Server Name");
    assert_eq!(b.validator(), Validator::AsciiGraphic);
    let c = Input::new_digit("width");
    assert_eq!(c.raw(), "");
    assert_eq!(c.validator(), Validator::AsciiDigit);
    let d = Input::new_digit_default("width", 10);
    assert_eq!(d.raw(), "10");
    assert_eq!(d.validator(), Validator::AsciiDigit);
}

#[test]
fn decimal_form_of_numbers() {
    for v in [0, 7, 10, 500, -1, -90, 1234567890, i32::MAX, i32::MIN] {
        assert_eq!(decimal_string(v), v.to_string());
    }
    assert_eq!(Input::new_digit_default("n", -2147483648).raw(), "-2147483648");
}

#[test]
fn validators_pass_their_characters() {
    let digits = Validator::AsciiDigit;
    assert!(digits.accepts('0'));
    assert!(digits.accepts('9'));
    assert!(!digits.accepts('a'));
    assert!(!digits.accepts('/'));
    assert!(!digits.accepts(':'));
    let graphic = Validator::AsciiGraphic;
    assert!(graphic.accepts('!'));
    assert!(graphic.accepts('~'));
    assert!(graphic.accepts('a'));
    assert!(!graphic.accepts(' '));
    assert!(!graphic.accepts('\u{7f}'));
    assert!(!graphic.accepts('é'));
    for c in ['0', 'x', ' ', '\n', 'é'] {
        assert_eq!(graphic.accepts(c), c.is_ascii_graphic());
        assert_eq!(digits.accepts(c), c.is_ascii_digit());
    }
    let input = Input::new_digit("width");
    assert!(input.accepts('5'));
    assert!(!input.accepts('x'));
}
