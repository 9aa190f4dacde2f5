//! The wire format of the messages, as functions between values and bytes.
//!
//! A message is its sequence number, its two optional ids, one byte that
//! names the kind of its payload, and the payload. Numbers are in
//! little-endian order; enumerations take one byte; a string or a list
//! stands behind a two-byte count.
//!
//! For each kind of value, `enc_…` is its encoding, `dec_…` the decoder
//! that finds it at the front of some bytes, and `lemma_…` the proof that
//! the decoder undoes the encoding in front of any bytes.

use vstd::prelude::*;
use crate::base::{
    Config,
    Coord,
    Direction,
    NodeRole,
    PlayerType,
    PlayerView,
    SnakeState,
    SnakeView,
    StateView,
};
use crate::message::{AnnouncementView, MessageView, PayloadView};
use crate::wire::{
    dec_bool,
    dec_i32,
    dec_i64,
    dec_list,
    dec_opt_i32,
    dec_str,
    dec_u8,
    enc_bool,
    enc_i32,
    enc_i64,
    enc_items,
    enc_list,
    enc_opt_i32,
    enc_str,
    enc_u8,
    lemma_bool,
    lemma_i32,
    lemma_i64,
    lemma_items_len,
    lemma_list,
    lemma_opt_i32,
    lemma_str,
    lemma_u16,
    lemma_u8,
    MAX_COUNT,
};

verus! {

// ---------------------------------------------------------------- enumerations

pub open spec fn direction_tag(d: Direction) -> u8 {
    match d {
        Direction::UP => 1,
        Direction::DOWN => 2,
        Direction::LEFT => 3,
        Direction::RIGHT => 4,
    }
}

pub open spec fn enc_direction(d: Direction) -> Seq<u8> {
    enc_u8(direction_tag(d))
}

pub open spec fn dec_direction(b: Seq<u8>) -> Option<(Direction, Seq<u8>)> {
    match dec_u8(b) {
        None => None,
        Some((t, rest)) => if t == 1 {
            Some((Direction::UP, rest))
        } else if t == 2 {
            Some((Direction::DOWN, rest))
        } else if t == 3 {
            Some((Direction::LEFT, rest))
        } else if t == 4 {
            Some((Direction::RIGHT, rest))
        } else {
            None
        },
    }
}

pub proof fn lemma_direction(d: Direction, rest: Seq<u8>)
    ensures
        enc_direction(d).len() == 1,
        dec_direction(enc_direction(d) + rest) == Some((d, rest)),
{
    lemma_u8(direction_tag(d), rest);
}

pub open spec fn role_tag(r: NodeRole) -> u8 {
    match r {
        NodeRole::NORMAL => 0,
        NodeRole::MASTER => 1,
        NodeRole::DEPUTY => 2,
        NodeRole::VIEWER => 3,
    }
}

pub open spec fn enc_role(r: NodeRole) -> Seq<u8> {
    enc_u8(role_tag(r))
}

pub open spec fn dec_role(b: Seq<u8>) -> Option<(NodeRole, Seq<u8>)> {
    match dec_u8(b) {
        None => None,
        Some((t, rest)) => if t == 0 {
            Some((NodeRole::NORMAL, rest))
        } else if t == 1 {
            Some((NodeRole::MASTER, rest))
        } else if t == 2 {
            Some((NodeRole::DEPUTY, rest))
        } else if t == 3 {
            Some((NodeRole::VIEWER, rest))
        } else {
            None
        },
    }
}

pub proof fn lemma_role(r: NodeRole, rest: Seq<u8>)
    ensures
        enc_role(r).len() == 1,
        dec_role(enc_role(r) + rest) == Some((r, rest)),
{
    lemma_u8(role_tag(r), rest);
}

pub open spec fn enc_opt_role(r: Option<NodeRole>) -> Seq<u8> {
    match r {
        None => enc_bool(false),
        Some(x) => enc_bool(true) + enc_role(x),
    }
}

pub open spec fn dec_opt_role(b: Seq<u8>) -> Option<(Option<NodeRole>, Seq<u8>)> {
    match dec_bool(b) {
        None => None,
        Some((false, rest)) => Some((None, rest)),
        Some((true, rest)) => match dec_role(rest) {
            None => None,
            Some((x, rest2)) => Some((Some(x), rest2)),
        },
    }
}

pub proof fn lemma_opt_role(r: Option<NodeRole>, rest: Seq<u8>)
    ensures
        1 <= enc_opt_role(r).len() <= 2,
        dec_opt_role(enc_opt_role(r) + rest) == Some((r, rest)),
{
    match r {
        None => {
            lemma_bool(false, rest);
        },
        Some(x) => {
            assert(enc_opt_role(r) + rest =~= enc_bool(true) + (enc_role(x) + rest));
            lemma_bool(true, enc_role(x) + rest);
            lemma_role(x, rest);
        },
    }
}

pub open spec fn enc_player_type(t: PlayerType) -> Seq<u8> {
    enc_bool(t == PlayerType::ROBOT)
}

pub open spec fn dec_player_type(b: Seq<u8>) -> Option<(PlayerType, Seq<u8>)> {
    match dec_bool(b) {
        None => None,
        Some((robot, rest)) => Some((if robot { PlayerType::ROBOT } else { PlayerType::HUMAN }, rest)),
    }
}

pub proof fn lemma_player_type(t: PlayerType, rest: Seq<u8>)
    ensures
        enc_player_type(t).len() == 1,
        dec_player_type(enc_player_type(t) + rest) == Some((t, rest)),
{
    lemma_bool(t == PlayerType::ROBOT, rest);
}

pub open spec fn enc_snake_state(s: SnakeState) -> Seq<u8> {
    enc_bool(s == SnakeState::ZOMBIE)
}

pub open spec fn dec_snake_state(b: Seq<u8>) -> Option<(SnakeState, Seq<u8>)> {
    match dec_bool(b) {
        None => None,
        Some((zombie, rest)) => Some(
            (if zombie { SnakeState::ZOMBIE } else { SnakeState::ALIVE }, rest),
        ),
    }
}

pub proof fn lemma_snake_state(s: SnakeState, rest: Seq<u8>)
    ensures
        enc_snake_state(s).len() == 1,
        dec_snake_state(enc_snake_state(s) + rest) == Some((s, rest)),
{
    lemma_bool(s == SnakeState::ZOMBIE, rest);
}

// ---------------------------------------------------------------- positions

pub open spec fn enc_coord(c: Coord) -> Seq<u8> {
    enc_i32(c.x) + enc_i32(c.y)
}

pub open spec fn dec_coord(b: Seq<u8>) -> Option<(Coord, Seq<u8>)> {
    match dec_i32(b) {
        None => None,
        Some((x, r1)) => match dec_i32(r1) {
            None => None,
            Some((y, r2)) => Some((Coord { x, y }, r2)),
        },
    }
}

pub proof fn lemma_coord(c: Coord, rest: Seq<u8>)
    ensures
        enc_coord(c).len() == 8,
        dec_coord(enc_coord(c) + rest) == Some((c, rest)),
{
    assert(enc_coord(c) + rest =~= enc_i32(c.x) + (enc_i32(c.y) + rest));
    lemma_i32(c.x, enc_i32(c.y) + rest);
    lemma_i32(c.y, rest);
}

pub open spec fn coord_enc() -> spec_fn(Coord) -> Seq<u8> {
    |c: Coord| enc_coord(c)
}

pub open spec fn coord_dec() -> spec_fn(Seq<u8>) -> Option<(Coord, Seq<u8>)> {
    |b: Seq<u8>| dec_coord(b)
}

pub proof fn lemma_coords(list: Seq<Coord>, rest: Seq<u8>)
    requires
        enc_list(list, coord_enc()).len() <= MAX_COUNT,
    ensures
        enc_list(list, coord_enc()).len() >= 2,
        dec_list(enc_list(list, coord_enc()) + rest, coord_dec()) == Some((list, rest)),
{
    lemma_u16((list.len() % 65536) as u16, Seq::empty());
    assert forall|c: Coord| #[trigger] coord_enc()(c).len() >= 1 by {
        lemma_coord(c, Seq::empty());
    }
    lemma_items_len(list, coord_enc());
    assert forall|i: int, r: Seq<u8>| 0 <= i < list.len() implies #[trigger] coord_dec()(
        coord_enc()(list[i]) + r,
    ) == Some((list[i], r)) by {
        lemma_coord(list[i], r);
    }
    lemma_list(list, coord_enc(), coord_dec(), rest);
}

// ---------------------------------------------------------------- parameters

pub open spec fn enc_config(c: Config) -> Seq<u8> {
    enc_i32(c.width) + enc_i32(c.height) + enc_i32(c.food_static) + enc_i32(c.state_delay_ms)
}

pub open spec fn dec_config(b: Seq<u8>) -> Option<(Config, Seq<u8>)> {
    match dec_i32(b) {
        None => None,
        Some((width, r1)) => match dec_i32(r1) {
            None => None,
            Some((height, r2)) => match dec_i32(r2) {
                None => None,
                Some((food_static, r3)) => match dec_i32(r3) {
                    None => None,
                    Some((state_delay_ms, r4)) => Some(
                        (Config { width, height, food_static, state_delay_ms }, r4),
                    ),
                },
            },
        },
    }
}

pub proof fn lemma_config(c: Config, rest: Seq<u8>)
    ensures
        enc_config(c).len() == 16,
        dec_config(enc_config(c) + rest) == Some((c, rest)),
{
    let e3 = enc_i32(c.state_delay_ms) + rest;
    let e2 = enc_i32(c.food_static) + e3;
    let e1 = enc_i32(c.height) + e2;
    assert(enc_config(c) + rest =~= enc_i32(c.width) + e1);
    lemma_i32(c.width, e1);
    lemma_i32(c.height, e2);
    lemma_i32(c.food_static, e3);
    lemma_i32(c.state_delay_ms, rest);
}

// ---------------------------------------------------------------- snakes

pub open spec fn enc_snake(s: SnakeView) -> Seq<u8> {
    enc_i32(s.player_id) + enc_list(s.body, coord_enc()) + enc_direction(s.direction)
        + enc_snake_state(s.state)
}

#[verifier::opaque]
pub open spec fn dec_snake(b: Seq<u8>) -> Option<(SnakeView, Seq<u8>)> {
    match dec_i32(b) {
        None => None,
        Some((player_id, r1)) => match dec_list(r1, coord_dec()) {
            None => None,
            Some((body, r2)) => match dec_direction(r2) {
                None => None,
                Some((direction, r3)) => match dec_snake_state(r3) {
                    None => None,
                    Some((state, r4)) => Some((SnakeView { player_id, body, direction, state }, r4)),
                },
            },
        },
    }
}

pub proof fn lemma_snake_len(s: SnakeView)
    ensures
        enc_snake(s).len() >= 8,
{
    lemma_i32(s.player_id, Seq::empty());
    lemma_u16((s.body.len() % 65536) as u16, Seq::empty());
    lemma_direction(s.direction, Seq::empty());
    lemma_snake_state(s.state, Seq::empty());
}

pub proof fn lemma_snake(s: SnakeView, rest: Seq<u8>)
    requires
        enc_snake(s).len() <= MAX_COUNT,
    ensures
        dec_snake(enc_snake(s) + rest) == Some((s, rest)),
{
    reveal(dec_snake);
    let e3 = enc_snake_state(s.state) + rest;
    let e2 = enc_direction(s.direction) + e3;
    let e1 = enc_list(s.body, coord_enc()) + e2;
    assert(enc_snake(s) + rest =~= enc_i32(s.player_id) + e1);
    lemma_i32(s.player_id, e1);
    lemma_coords(s.body, e2);
    lemma_direction(s.direction, e3);
    lemma_snake_state(s.state, rest);
}

pub open spec fn snake_enc() -> spec_fn(SnakeView) -> Seq<u8> {
    |s: SnakeView| enc_snake(s)
}

pub open spec fn snake_dec() -> spec_fn(Seq<u8>) -> Option<(SnakeView, Seq<u8>)> {
    |b: Seq<u8>| dec_snake(b)
}

pub proof fn lemma_snakes(list: Seq<SnakeView>, rest: Seq<u8>)
    requires
        enc_list(list, snake_enc()).len() <= MAX_COUNT,
    ensures
        enc_list(list, snake_enc()).len() >= 2,
        dec_list(enc_list(list, snake_enc()) + rest, snake_dec()) == Some((list, rest)),
{
    lemma_u16((list.len() % 65536) as u16, Seq::empty());
    assert forall|s: SnakeView| #[trigger] snake_enc()(s).len() >= 1 by {
        lemma_snake_len(s);
    }
    lemma_items_len(list, snake_enc());
    assert forall|i: int, r: Seq<u8>| 0 <= i < list.len() implies #[trigger] snake_dec()(
        snake_enc()(list[i]) + r,
    ) == Some((list[i], r)) by {
        assert(snake_enc()(list[i]).len() <= enc_items(list, snake_enc()).len());
        lemma_snake(list[i], r);
    }
    lemma_list(list, snake_enc(), snake_dec(), rest);
}

// ---------------------------------------------------------------- players

pub open spec fn enc_player(p: PlayerView) -> Seq<u8> {
    enc_str(p.name) + enc_i32(p.id) + enc_str(p.ip_address) + enc_role(p.role) + enc_player_type(
        p.player_type,
    ) + enc_i32(p.score)
}

#[verifier::opaque]
pub open spec fn dec_player(b: Seq<u8>) -> Option<(PlayerView, Seq<u8>)> {
    match dec_str(b) {
        None => None,
        Some((name, r1)) => match dec_i32(r1) {
            None => None,
            Some((id, r2)) => match dec_str(r2) {
                None => None,
                Some((ip_address, r3)) => match dec_role(r3) {
                    None => None,
                    Some((role, r4)) => match dec_player_type(r4) {
                        None => None,
                        Some((player_type, r5)) => match dec_i32(r5) {
                            None => None,
                            Some((score, r6)) => Some(
                                (PlayerView { name, id, ip_address, role, player_type, score }, r6),
                            ),
                        },
                    },
                },
            },
        },
    }
}

pub proof fn lemma_player_len(p: PlayerView)
    ensures
        enc_player(p).len() >= 8,
{
    lemma_i32(p.id, Seq::empty());
    lemma_i32(p.score, Seq::empty());
}

pub proof fn lemma_player(p: PlayerView, rest: Seq<u8>)
    requires
        enc_player(p).len() <= MAX_COUNT,
    ensures
        dec_player(enc_player(p) + rest) == Some((p, rest)),
{
    reveal(dec_player);
    let e5 = enc_i32(p.score) + rest;
    let e4 = enc_player_type(p.player_type) + e5;
    let e3 = enc_role(p.role) + e4;
    let e2 = enc_str(p.ip_address) + e3;
    let e1 = enc_i32(p.id) + e2;
    assert(enc_player(p) + rest =~= enc_str(p.name) + e1);
    lemma_str(p.name, e1);
    lemma_i32(p.id, e2);
    lemma_str(p.ip_address, e3);
    lemma_role(p.role, e4);
    lemma_player_type(p.player_type, e5);
    lemma_i32(p.score, rest);
}

pub open spec fn player_enc() -> spec_fn(PlayerView) -> Seq<u8> {
    |p: PlayerView| enc_player(p)
}

pub open spec fn player_dec() -> spec_fn(Seq<u8>) -> Option<(PlayerView, Seq<u8>)> {
    |b: Seq<u8>| dec_player(b)
}

pub proof fn lemma_players(list: Seq<PlayerView>, rest: Seq<u8>)
    requires
        enc_list(list, player_enc()).len() <= MAX_COUNT,
    ensures
        enc_list(list, player_enc()).len() >= 2,
        dec_list(enc_list(list, player_enc()) + rest, player_dec()) == Some((list, rest)),
{
    lemma_u16((list.len() % 65536) as u16, Seq::empty());
    assert forall|p: PlayerView| #[trigger] player_enc()(p).len() >= 1 by {
        lemma_player_len(p);
    }
    lemma_items_len(list, player_enc());
    assert forall|i: int, r: Seq<u8>| 0 <= i < list.len() implies #[trigger] player_dec()(
        player_enc()(list[i]) + r,
    ) == Some((list[i], r)) by {
        assert(player_enc()(list[i]).len() <= enc_items(list, player_enc()).len());
        lemma_player(list[i], r);
    }
    lemma_list(list, player_enc(), player_dec(), rest);
}

// ---------------------------------------------------------------- snapshots

pub open spec fn enc_state(s: StateView) -> Seq<u8> {
    enc_i32(s.state_order) + enc_list(s.snakes, snake_enc()) + enc_list(s.foods, coord_enc())
        + enc_list(s.players, player_enc())
}

#[verifier::opaque]
pub open spec fn dec_state(b: Seq<u8>) -> Option<(StateView, Seq<u8>)> {
    match dec_i32(b) {
        None => None,
        Some((state_order, r1)) => match dec_list(r1, snake_dec()) {
            None => None,
            Some((snakes, r2)) => match dec_list(r2, coord_dec()) {
                None => None,
                Some((foods, r3)) => match dec_list(r3, player_dec()) {
                    None => None,
                    Some((players, r4)) => Some(
                        (StateView { state_order, snakes, foods, players }, r4),
                    ),
                },
            },
        },
    }
}

pub proof fn lemma_state(s: StateView, rest: Seq<u8>)
    requires
        enc_state(s).len() <= MAX_COUNT,
    ensures
        dec_state(enc_state(s) + rest) == Some((s, rest)),
{
    reveal(dec_state);
    let e3 = enc_list(s.players, player_enc()) + rest;
    let e2 = enc_list(s.foods, coord_enc()) + e3;
    let e1 = enc_list(s.snakes, snake_enc()) + e2;
    assert(enc_state(s) + rest =~= enc_i32(s.state_order) + e1);
    lemma_i32(s.state_order, e1);
    lemma_snakes(s.snakes, e2);
    lemma_coords(s.foods, e3);
    lemma_players(s.players, rest);
}

// ---------------------------------------------------------------- advertisements

pub open spec fn enc_announcement(a: AnnouncementView) -> Seq<u8> {
    enc_list(a.players, player_enc()) + enc_config(a.config) + enc_bool(a.can_join) + enc_str(
        a.game_name,
    )
}

#[verifier::opaque]
pub open spec fn dec_announcement(b: Seq<u8>) -> Option<(AnnouncementView, Seq<u8>)> {
    match dec_list(b, player_dec()) {
        None => None,
        Some((players, r1)) => match dec_config(r1) {
            None => None,
            Some((config, r2)) => match dec_bool(r2) {
                None => None,
                Some((can_join, r3)) => match dec_str(r3) {
                    None => None,
                    Some((game_name, r4)) => Some(
                        (AnnouncementView { players, config, can_join, game_name }, r4),
                    ),
                },
            },
        },
    }
}

pub proof fn lemma_announcement_len(a: AnnouncementView)
    ensures
        enc_announcement(a).len() >= 16,
{
    lemma_config(a.config, Seq::empty());
}

pub proof fn lemma_announcement(a: AnnouncementView, rest: Seq<u8>)
    requires
        enc_announcement(a).len() <= MAX_COUNT,
    ensures
        dec_announcement(enc_announcement(a) + rest) == Some((a, rest)),
{
    reveal(dec_announcement);
    let e3 = enc_str(a.game_name) + rest;
    let e2 = enc_bool(a.can_join) + e3;
    let e1 = enc_config(a.config) + e2;
    assert(enc_announcement(a) + rest =~= enc_list(a.players, player_enc()) + e1);
    lemma_players(a.players, e1);
    lemma_config(a.config, e2);
    lemma_bool(a.can_join, e3);
    lemma_str(a.game_name, rest);
}

pub open spec fn announcement_enc() -> spec_fn(AnnouncementView) -> Seq<u8> {
    |a: AnnouncementView| enc_announcement(a)
}

pub open spec fn announcement_dec() -> spec_fn(Seq<u8>) -> Option<(AnnouncementView, Seq<u8>)> {
    |b: Seq<u8>| dec_announcement(b)
}

pub proof fn lemma_announcements(list: Seq<AnnouncementView>, rest: Seq<u8>)
    requires
        enc_list(list, announcement_enc()).len() <= MAX_COUNT,
    ensures
        enc_list(list, announcement_enc()).len() >= 2,
        dec_list(enc_list(list, announcement_enc()) + rest, announcement_dec()) == Some(
            (list, rest),
        ),
{
    lemma_u16((list.len() % 65536) as u16, Seq::empty());
    assert forall|a: AnnouncementView| #[trigger] announcement_enc()(a).len() >= 1 by {
        lemma_announcement_len(a);
    }
    lemma_items_len(list, announcement_enc());
    assert forall|i: int, r: Seq<u8>| 0 <= i < list.len() implies #[trigger] announcement_dec()(
        announcement_enc()(list[i]) + r,
    ) == Some((list[i], r)) by {
        assert(announcement_enc()(list[i]).len() <= enc_items(list, announcement_enc()).len());
        lemma_announcement(list[i], r);
    }
    lemma_list(list, announcement_enc(), announcement_dec(), rest);
}

// ---------------------------------------------------------------- payloads

/// The byte that names the kind of a payload.
pub open spec fn payload_tag(p: PayloadView) -> u8 {
    match p {
        PayloadView::Ping => 2,
        PayloadView::Steer { .. } => 3,
        PayloadView::Ack => 4,
        PayloadView::State { .. } => 5,
        PayloadView::Announcement { .. } => 6,
        PayloadView::Join { .. } => 7,
        PayloadView::Error { .. } => 8,
        PayloadView::RoleChange { .. } => 9,
        PayloadView::Discover => 12,
    }
}

/// What stands behind the tag of a payload.
pub open spec fn enc_contents(p: PayloadView) -> Seq<u8> {
    match p {
        PayloadView::Ping => Seq::empty(),
        PayloadView::Steer { direction } => enc_direction(direction),
        PayloadView::Ack => Seq::empty(),
        PayloadView::State { state } => enc_state(state),
        PayloadView::Announcement { games } => enc_list(games, announcement_enc()),
        PayloadView::Join { player_type, player_name, game_name, requested_role } => enc_player_type(
            player_type,
        ) + enc_str(player_name) + enc_str(game_name) + enc_role(requested_role),
        PayloadView::Error { error_message } => enc_str(error_message),
        PayloadView::RoleChange { sender_role, receiver_role } => enc_opt_role(sender_role)
            + enc_opt_role(receiver_role),
        PayloadView::Discover => Seq::empty(),
    }
}

pub open spec fn enc_payload(p: PayloadView) -> Seq<u8> {
    enc_u8(payload_tag(p)) + enc_contents(p)
}

#[verifier::opaque]
pub open spec fn dec_join(b: Seq<u8>) -> Option<(PayloadView, Seq<u8>)> {
    match dec_player_type(b) {
        None => None,
        Some((player_type, r1)) => match dec_str(r1) {
            None => None,
            Some((player_name, r2)) => match dec_str(r2) {
                None => None,
                Some((game_name, r3)) => match dec_role(r3) {
                    None => None,
                    Some((requested_role, r4)) => Some(
                        (PayloadView::Join { player_type, player_name, game_name, requested_role }, r4),
                    ),
                },
            },
        },
    }
}

#[verifier::opaque]
pub open spec fn dec_role_change(b: Seq<u8>) -> Option<(PayloadView, Seq<u8>)> {
    match dec_opt_role(b) {
        None => None,
        Some((sender_role, r1)) => match dec_opt_role(r1) {
            None => None,
            Some((receiver_role, r2)) => Some((PayloadView::RoleChange { sender_role, receiver_role }, r2)),
        },
    }
}

#[verifier::opaque]
pub open spec fn dec_contents(tag: u8, b: Seq<u8>) -> Option<(PayloadView, Seq<u8>)> {
    if tag == 2 {
        Some((PayloadView::Ping, b))
    } else if tag == 3 {
        match dec_direction(b) {
            None => None,
            Some((direction, rest)) => Some((PayloadView::Steer { direction }, rest)),
        }
    } else if tag == 4 {
        Some((PayloadView::Ack, b))
    } else if tag == 5 {
        match dec_state(b) {
            None => None,
            Some((state, rest)) => Some((PayloadView::State { state }, rest)),
        }
    } else if tag == 6 {
        match dec_list(b, announcement_dec()) {
            None => None,
            Some((games, rest)) => Some((PayloadView::Announcement { games }, rest)),
        }
    } else if tag == 7 {
        dec_join(b)
    } else if tag == 8 {
        match dec_str(b) {
            None => None,
            Some((error_message, rest)) => Some((PayloadView::Error { error_message }, rest)),
        }
    } else if tag == 9 {
        dec_role_change(b)
    } else if tag == 12 {
        Some((PayloadView::Discover, b))
    } else {
        None
    }
}

#[verifier::opaque]
pub open spec fn dec_payload(b: Seq<u8>) -> Option<(PayloadView, Seq<u8>)> {
    match dec_u8(b) {
        None => None,
        Some((tag, rest)) => dec_contents(tag, rest),
    }
}

pub proof fn lemma_join(
    player_type: PlayerType,
    player_name: Seq<char>,
    game_name: Seq<char>,
    requested_role: NodeRole,
    rest: Seq<u8>,
)
    requires
        enc_str(player_name).len() + enc_str(game_name).len() <= MAX_COUNT,
    ensures
        dec_join(
            enc_player_type(player_type) + enc_str(player_name) + enc_str(game_name) + enc_role(
                requested_role,
            ) + rest,
        ) == Some((PayloadView::Join { player_type, player_name, game_name, requested_role }, rest)),
{
    reveal(dec_join);
    let e3 = enc_role(requested_role) + rest;
    let e2 = enc_str(game_name) + e3;
    let e1 = enc_str(player_name) + e2;
    assert(enc_player_type(player_type) + enc_str(player_name) + enc_str(game_name) + enc_role(
        requested_role,
    ) + rest =~= enc_player_type(player_type) + e1);
    lemma_player_type(player_type, e1);
    lemma_str(player_name, e2);
    lemma_str(game_name, e3);
    lemma_role(requested_role, rest);
}

pub proof fn lemma_role_change(
    sender_role: Option<NodeRole>,
    receiver_role: Option<NodeRole>,
    rest: Seq<u8>,
)
    ensures
        dec_role_change(enc_opt_role(sender_role) + enc_opt_role(receiver_role) + rest) == Some(
            (PayloadView::RoleChange { sender_role, receiver_role }, rest),
        ),
{
    reveal(dec_role_change);
    let e1 = enc_opt_role(receiver_role) + rest;
    assert(enc_opt_role(sender_role) + enc_opt_role(receiver_role) + rest =~= enc_opt_role(
        sender_role,
    ) + e1);
    lemma_opt_role(sender_role, e1);
    lemma_opt_role(receiver_role, rest);
}

pub proof fn lemma_contents(p: PayloadView, rest: Seq<u8>)
    requires
        enc_contents(p).len() <= MAX_COUNT,
    ensures
        dec_contents(payload_tag(p), enc_contents(p) + rest) == Some((p, rest)),
{
    reveal(dec_contents);
    match p {
        PayloadView::Ping => {
            assert(enc_contents(p) + rest =~= rest);
        },
        PayloadView::Steer { direction } => {
            lemma_direction(direction, rest);
        },
        PayloadView::Ack => {
            assert(enc_contents(p) + rest =~= rest);
        },
        PayloadView::State { state } => {
            lemma_state(state, rest);
        },
        PayloadView::Announcement { games } => {
            lemma_announcements(games, rest);
        },
        PayloadView::Join { player_type, player_name, game_name, requested_role } => {
            lemma_player_type(player_type, Seq::empty());
            lemma_role(requested_role, Seq::empty());
            lemma_join(player_type, player_name, game_name, requested_role, rest);
        },
        PayloadView::Error { error_message } => {
            lemma_str(error_message, rest);
        },
        PayloadView::RoleChange { sender_role, receiver_role } => {
            lemma_role_change(sender_role, receiver_role, rest);
        },
        PayloadView::Discover => {
            assert(enc_contents(p) + rest =~= rest);
        },
    }
}

pub proof fn lemma_payload(p: PayloadView, rest: Seq<u8>)
    requires
        enc_payload(p).len() <= MAX_COUNT,
    ensures
        dec_payload(enc_payload(p) + rest) == Some((p, rest)),
{
    reveal(dec_payload);
    assert(enc_payload(p) + rest =~= enc_u8(payload_tag(p)) + (enc_contents(p) + rest));
    lemma_u8(payload_tag(p), enc_contents(p) + rest);
    lemma_contents(p, rest);
}

// ---------------------------------------------------------------- messages

/// The largest datagram that carries a message.
pub const MAX_DATAGRAM: usize = 1024;

/// The bytes of a message.
pub open spec fn enc_message(m: MessageView) -> Seq<u8> {
    enc_i64(m.msg_seq) + enc_opt_i32(m.sender_id) + enc_opt_i32(m.receiver_id) + enc_payload(
        m.payload,
    )
}

/// The message at the front of the bytes, and the bytes behind it.
pub open spec fn dec_message(b: Seq<u8>) -> Option<(MessageView, Seq<u8>)> {
    match dec_i64(b) {
        None => None,
        Some((msg_seq, r1)) => match dec_opt_i32(r1) {
            None => None,
            Some((sender_id, r2)) => match dec_opt_i32(r2) {
                None => None,
                Some((receiver_id, r3)) => match dec_payload(r3) {
                    None => None,
                    Some((payload, r4)) => Some(
                        (MessageView { msg_seq, sender_id, receiver_id, payload }, r4),
                    ),
                },
            },
        },
    }
}

/// The message fits into one datagram.
pub open spec fn fits(m: MessageView) -> bool {
    enc_message(m).len() <= MAX_DATAGRAM
}

/// The message that a datagram spells: the bytes must hold one message and
/// nothing behind it.
pub open spec fn parse(b: Seq<u8>) -> Option<MessageView> {
    match dec_message(b) {
        Some((m, rest)) => if rest.len() == 0 {
            Some(m)
        } else {
            None
        },
        None => None,
    }
}

pub proof fn lemma_message(m: MessageView, rest: Seq<u8>)
    requires
        enc_message(m).len() <= MAX_COUNT,
    ensures
        dec_message(enc_message(m) + rest) == Some((m, rest)),
{
    let e3 = enc_payload(m.payload) + rest;
    let e2 = enc_opt_i32(m.receiver_id) + e3;
    let e1 = enc_opt_i32(m.sender_id) + e2;
    assert(enc_message(m) + rest =~= enc_i64(m.msg_seq) + e1);
    lemma_i64(m.msg_seq, e1);
    lemma_opt_i32(m.sender_id, e2);
    lemma_opt_i32(m.receiver_id, e3);
    lemma_payload(m.payload, rest);
}

/// Parsing undoes the encoding of every message that fits into a datagram.
pub proof fn lemma_roundtrip(m: MessageView)
    requires
        fits(m),
    ensures
        parse(enc_message(m)) == Some(m),
{
    lemma_message(m, Seq::empty());
    assert(enc_message(m) + Seq::<u8>::empty() =~= enc_message(m));
}

} // verus!
