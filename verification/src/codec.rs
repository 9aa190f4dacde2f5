//! Encoding messages into datagrams and decoding datagrams into messages.
//!
//! Every writer appends the encoding that [`crate::format`] defines, every
//! reader returns what the decoder of [`crate::format`] finds: for each
//! kind of value, `write_…` is the writer and `read_…` the reader.

use vstd::prelude::*;
use crate::base::{
    player_views,
    snake_views,
    Config,
    Coord,
    Direction,
    GamePlayer,
    GameState,
    NodeRole,
    PlayerType,
    PlayerView,
    Snake,
    SnakeState,
    SnakeView,
};
use crate::format::{
    announcement_dec,
    announcement_enc,
    coord_dec,
    coord_enc,
    dec_announcement,
    dec_config,
    dec_contents,
    dec_coord,
    dec_direction,
    dec_join,
    dec_message,
    dec_opt_role,
    dec_payload,
    dec_player,
    dec_player_type,
    dec_role,
    dec_role_change,
    dec_snake,
    dec_snake_state,
    dec_state,
    enc_announcement,
    enc_config,
    enc_coord,
    enc_direction,
    enc_message,
    enc_opt_role,
    enc_payload,
    enc_player,
    enc_player_type,
    enc_role,
    enc_snake,
    enc_snake_state,
    enc_state,
    fits,
    parse,
    player_dec,
    player_enc,
    snake_dec,
    snake_enc,
    MAX_DATAGRAM,
};
use crate::message::{announcement_views, AnnouncementView, GameAnnouncement, GameMessage, Payload};
use crate::wire::{
    dec_items,
    dec_list,
    enc_items,
    enc_list,
    lemma_items_fail,
    parsed,
    parsed_view,
    read_bool,
    read_i32,
    read_i64,
    read_opt_i32,
    read_str,
    read_u16,
    read_u8,
    write_bool,
    write_count,
    write_i32,
    write_i64,
    write_opt_i32,
    write_str,
    write_u8,
};

verus! {

// ---------------------------------------------------------------- enumerations

pub fn write_direction(out: &mut Vec<u8>, d: Direction)
    ensures
        final(out)@ == old(out)@ + enc_direction(d),
{
    let tag: u8 = match d {
        Direction::UP => 1,
        Direction::DOWN => 2,
        Direction::LEFT => 3,
        Direction::RIGHT => 4,
    };
    write_u8(out, tag);
}

pub fn read_direction(bytes: &Vec<u8>, pos: usize) -> (r: Option<(Direction, usize)>)
    requires
        pos <= bytes.len(),
    ensures
        parsed(r, bytes@, pos, dec_direction(bytes@.skip(pos as int))),
{
    match read_u8(bytes, pos) {
        None => None,
        Some((t, next)) => if t == 1 {
            Some((Direction::UP, next))
        } else if t == 2 {
            Some((Direction::DOWN, next))
        } else if t == 3 {
            Some((Direction::LEFT, next))
        } else if t == 4 {
            Some((Direction::RIGHT, next))
        } else {
            None
        },
    }
}

pub fn write_role(out: &mut Vec<u8>, r: NodeRole)
    ensures
        final(out)@ == old(out)@ + enc_role(r),
{
    let tag: u8 = match r {
        NodeRole::NORMAL => 0,
        NodeRole::MASTER => 1,
        NodeRole::DEPUTY => 2,
        NodeRole::VIEWER => 3,
    };
    write_u8(out, tag);
}

pub fn read_role(bytes: &Vec<u8>, pos: usize) -> (r: Option<(NodeRole, usize)>)
    requires
        pos <= bytes.len(),
    ensures
        parsed(r, bytes@, pos, dec_role(bytes@.skip(pos as int))),
{
    match read_u8(bytes, pos) {
        None => None,
        Some((t, next)) => if t == 0 {
            Some((NodeRole::NORMAL, next))
        } else if t == 1 {
            Some((NodeRole::MASTER, next))
        } else if t == 2 {
            Some((NodeRole::DEPUTY, next))
        } else if t == 3 {
            Some((NodeRole::VIEWER, next))
        } else {
            None
        },
    }
}

pub fn write_opt_role(out: &mut Vec<u8>, r: Option<NodeRole>)
    ensures
        final(out)@ == old(out)@ + enc_opt_role(r),
{
    match r {
        None => {
            write_bool(out, false);
        },
        Some(x) => {
            write_bool(out, true);
            write_role(out, x);
            proof {
                assert(out@ =~= old(out)@ + enc_opt_role(r));
            }
        },
    }
}

pub fn read_opt_role(bytes: &Vec<u8>, pos: usize) -> (r: Option<(Option<NodeRole>, usize)>)
    requires
        pos <= bytes.len(),
    ensures
        parsed(r, bytes@, pos, dec_opt_role(bytes@.skip(pos as int))),
{
    match read_bool(bytes, pos) {
        None => None,
        Some((false, next)) => Some((None, next)),
        Some((true, next)) => match read_role(bytes, next) {
            None => None,
            Some((x, next2)) => Some((Some(x), next2)),
        },
    }
}

pub fn write_player_type(out: &mut Vec<u8>, t: PlayerType)
    ensures
        final(out)@ == old(out)@ + enc_player_type(t),
{
    write_bool(out, t == PlayerType::ROBOT);
}

pub fn read_player_type(bytes: &Vec<u8>, pos: usize) -> (r: Option<(PlayerType, usize)>)
    requires
        pos <= bytes.len(),
    ensures
        parsed(r, bytes@, pos, dec_player_type(bytes@.skip(pos as int))),
{
    match read_bool(bytes, pos) {
        None => None,
        Some((robot, next)) => Some((if robot { PlayerType::ROBOT } else { PlayerType::HUMAN }, next)),
    }
}

pub fn write_snake_state(out: &mut Vec<u8>, s: SnakeState)
    ensures
        final(out)@ == old(out)@ + enc_snake_state(s),
{
    write_bool(out, s == SnakeState::ZOMBIE);
}

pub fn read_snake_state(bytes: &Vec<u8>, pos: usize) -> (r: Option<(SnakeState, usize)>)
    requires
        pos <= bytes.len(),
    ensures
        parsed(r, bytes@, pos, dec_snake_state(bytes@.skip(pos as int))),
{
    match read_bool(bytes, pos) {
        None => None,
        Some((zombie, next)) => Some(
            (if zombie { SnakeState::ZOMBIE } else { SnakeState::ALIVE }, next),
        ),
    }
}

// ---------------------------------------------------------------- positions and parameters

pub fn write_coord(out: &mut Vec<u8>, c: &Coord)
    ensures
        final(out)@ == old(out)@ + enc_coord(*c),
{
    write_i32(out, c.x);
    write_i32(out, c.y);
    proof {
        assert(out@ =~= old(out)@ + enc_coord(*c));
    }
}

pub fn read_coord(bytes: &Vec<u8>, pos: usize) -> (r: Option<(Coord, usize)>)
    requires
        pos <= bytes.len(),
    ensures
        parsed(r, bytes@, pos, dec_coord(bytes@.skip(pos as int))),
{
    match read_i32(bytes, pos) {
        None => None,
        Some((x, at1)) => match read_i32(bytes, at1) {
            None => None,
            Some((y, at2)) => Some((Coord { x, y }, at2)),
        },
    }
}

pub fn write_config(out: &mut Vec<u8>, c: &Config)
    ensures
        final(out)@ == old(out)@ + enc_config(*c),
{
    write_i32(out, c.width);
    write_i32(out, c.height);
    write_i32(out, c.food_static);
    write_i32(out, c.state_delay_ms);
    proof {
        assert(out@ =~= old(out)@ + enc_config(*c));
    }
}

pub fn read_config(bytes: &Vec<u8>, pos: usize) -> (r: Option<(Config, usize)>)
    requires
        pos <= bytes.len(),
    ensures
        parsed(r, bytes@, pos, dec_config(bytes@.skip(pos as int))),
{
    match read_i32(bytes, pos) {
        None => None,
        Some((width, at1)) => match read_i32(bytes, at1) {
            None => None,
            Some((height, at2)) => match read_i32(bytes, at2) {
                None => None,
                Some((food_static, at3)) => match read_i32(bytes, at3) {
                    None => None,
                    Some((state_delay_ms, at4)) => Some(
                        (Config { width, height, food_static, state_delay_ms }, at4),
                    ),
                },
            },
        },
    }
}

// ---------------------------------------------------------------- lists of positions

/// The reader's result is the list of coords that the decoder found.
pub open spec fn parsed_coords(
    r: Option<(Vec<Coord>, usize)>,
    bytes: Seq<u8>,
    pos: usize,
    expected: Option<(Seq<Coord>, Seq<u8>)>,
) -> bool {
    match expected {
        None => r is None,
        Some((v, rest)) => match r {
            None => false,
            Some((got, next)) => got@ == v && pos <= next <= bytes.len() && bytes.skip(
                next as int,
            ) == rest,
        },
    }
}

pub fn write_coords(out: &mut Vec<u8>, list: &Vec<Coord>)
    ensures
        final(out)@ == old(out)@ + enc_list(list@, coord_enc()),
{
    write_count(out, list.len());
    let ghost base = out@;
    let mut i: usize = 0;
    proof {
        assert(out@ =~= base + enc_items(list@.subrange(0, 0), coord_enc()));
    }
    while i < list.len()
        invariant
            i <= list.len(),
            out@ == base + enc_items(list@.subrange(0, i as int), coord_enc()),
        decreases list.len() - i,
    {
        write_coord(out, &list[i]);
        proof {
            assert(list@.subrange(0, i + 1).drop_last() =~= list@.subrange(0, i as int));
            assert(list@.subrange(0, i + 1).last() == list@[i as int]);
            assert(out@ =~= base + enc_items(list@.subrange(0, i + 1), coord_enc()));
        }
        i += 1;
    }
    proof {
        assert(list@.subrange(0, i as int) =~= list@);
        assert(out@ =~= old(out)@ + enc_list(list@, coord_enc()));
    }
}

pub fn read_coords(bytes: &Vec<u8>, pos: usize) -> (r: Option<(Vec<Coord>, usize)>)
    requires
        pos <= bytes.len(),
    ensures
        parsed_coords(r, bytes@, pos, dec_list(bytes@.skip(pos as int), coord_dec())),
{
    match read_u16(bytes, pos) {
        None => None,
        Some((n, start)) => {
            let mut list: Vec<Coord> = Vec::new();
            let mut at: usize = start;
            let mut i: u16 = 0;
            proof {
                assert(list@ =~= Seq::<Coord>::empty());
            }
            while i < n
                invariant
                    i <= n,
                    pos <= start <= at <= bytes.len(),
                    crate::wire::dec_u16(bytes@.skip(pos as int)) == Some(
                        (n, bytes@.skip(start as int)),
                    ),
                    dec_items(bytes@.skip(start as int), i as nat, coord_dec()) == Some(
                        (list@, bytes@.skip(at as int)),
                    ),
                decreases n - i,
            {
                let ghost before = list@;
                match read_coord(bytes, at) {
                    None => {
                        proof {
                            assert(coord_dec()(bytes@.skip(at as int)) is None);
                            assert(dec_items(
                                bytes@.skip(start as int),
                                (i + 1) as nat,
                                coord_dec(),
                            ) is None);
                            lemma_items_fail(
                                bytes@.skip(start as int),
                                (i + 1) as nat,
                                n as nat,
                                coord_dec(),
                            );
                        }
                        return None;
                    },
                    Some((item, next)) => {
                        list.push(item);
                        at = next;
                        proof {
                            assert(list@ =~= before.push(item));
                        }
                    },
                }
                i += 1;
            }
            Some((list, at))
        },
    }
}

// ---------------------------------------------------------------- snakes

pub fn write_snake(out: &mut Vec<u8>, s: &Snake)
    ensures
        final(out)@ == old(out)@ + enc_snake(s@),
{
    write_i32(out, s.player_id);
    write_coords(out, &s.body);
    write_direction(out, s.direction);
    write_snake_state(out, s.state);
    proof {
        assert(out@ =~= old(out)@ + enc_snake(s@));
    }
}

pub fn read_snake(bytes: &Vec<u8>, pos: usize) -> (r: Option<(Snake, usize)>)
    requires
        pos <= bytes.len(),
    ensures
        parsed_view(r, bytes@, pos, dec_snake(bytes@.skip(pos as int))),
{
    reveal(dec_snake);
    match read_i32(bytes, pos) {
        None => None,
        Some((player_id, at1)) => match read_coords(bytes, at1) {
            None => None,
            Some((body, at2)) => match read_direction(bytes, at2) {
                None => None,
                Some((direction, at3)) => match read_snake_state(bytes, at3) {
                    None => None,
                    Some((state, at4)) => Some((Snake { player_id, body, direction, state }, at4)),
                },
            },
        },
    }
}

/// The reader's result is the list of snakes that the decoder found.
pub open spec fn parsed_snakes(
    r: Option<(Vec<Snake>, usize)>,
    bytes: Seq<u8>,
    pos: usize,
    expected: Option<(Seq<SnakeView>, Seq<u8>)>,
) -> bool {
    match expected {
        None => r is None,
        Some((v, rest)) => match r {
            None => false,
            Some((got, next)) => snake_views(got@) == v && pos <= next <= bytes.len() && bytes.skip(
                next as int,
            ) == rest,
        },
    }
}

pub fn write_snakes(out: &mut Vec<u8>, list: &Vec<Snake>)
    ensures
        final(out)@ == old(out)@ + enc_list(snake_views(list@), snake_enc()),
{
    write_count(out, list.len());
    let ghost base = out@;
    let mut i: usize = 0;
    proof {
        assert(out@ =~= base + enc_items(snake_views(list@).subrange(0, 0), snake_enc()));
    }
    while i < list.len()
        invariant
            i <= list.len(),
            out@ == base + enc_items(snake_views(list@).subrange(0, i as int), snake_enc()),
        decreases list.len() - i,
    {
        write_snake(out, &list[i]);
        proof {
            assert(snake_views(list@).subrange(0, i + 1).drop_last() =~= snake_views(list@).subrange(0, i as int));
            assert(snake_views(list@).subrange(0, i + 1).last() == list@[i as int]@);
            assert(out@ =~= base + enc_items(snake_views(list@).subrange(0, i + 1), snake_enc()));
        }
        i += 1;
    }
    proof {
        assert(snake_views(list@).subrange(0, i as int) =~= snake_views(list@));
        assert(out@ =~= old(out)@ + enc_list(snake_views(list@), snake_enc()));
    }
}

pub fn read_snakes(bytes: &Vec<u8>, pos: usize) -> (r: Option<(Vec<Snake>, usize)>)
    requires
        pos <= bytes.len(),
    ensures
        parsed_snakes(r, bytes@, pos, dec_list(bytes@.skip(pos as int), snake_dec())),
{
    match read_u16(bytes, pos) {
        None => None,
        Some((n, start)) => {
            let mut list: Vec<Snake> = Vec::new();
            let mut at: usize = start;
            let mut i: u16 = 0;
            proof {
                assert(snake_views(list@) =~= Seq::<SnakeView>::empty());
            }
            while i < n
                invariant
                    i <= n,
                    pos <= start <= at <= bytes.len(),
                    crate::wire::dec_u16(bytes@.skip(pos as int)) == Some(
                        (n, bytes@.skip(start as int)),
                    ),
                    dec_items(bytes@.skip(start as int), i as nat, snake_dec()) == Some(
                        (snake_views(list@), bytes@.skip(at as int)),
                    ),
                decreases n - i,
            {
                let ghost before = snake_views(list@);
                match read_snake(bytes, at) {
                    None => {
                        proof {
                            assert(snake_dec()(bytes@.skip(at as int)) is None);
                            assert(dec_items(
                                bytes@.skip(start as int),
                                (i + 1) as nat,
                                snake_dec(),
                            ) is None);
                            lemma_items_fail(
                                bytes@.skip(start as int),
                                (i + 1) as nat,
                                n as nat,
                                snake_dec(),
                            );
                        }
                        return None;
                    },
                    Some((item, next)) => {
                        list.push(item);
                        at = next;
                        proof {
                            assert(snake_views(list@) =~= before.push(item@));
                        }
                    },
                }
                i += 1;
            }
            Some((list, at))
        },
    }
}

// ---------------------------------------------------------------- players

pub fn write_player(out: &mut Vec<u8>, p: &GamePlayer)
    ensures
        final(out)@ == old(out)@ + enc_player(p@),
{
    write_str(out, &p.name);
    write_i32(out, p.id);
    write_str(out, &p.ip_address);
    write_role(out, p.role);
    write_player_type(out, p.player_type);
    write_i32(out, p.score);
    proof {
        assert(out@ =~= old(out)@ + enc_player(p@));
    }
}

pub fn read_player(bytes: &Vec<u8>, pos: usize) -> (r: Option<(GamePlayer, usize)>)
    requires
        pos <= bytes.len(),
    ensures
        parsed_view(r, bytes@, pos, dec_player(bytes@.skip(pos as int))),
{
    reveal(dec_player);
    match read_str(bytes, pos) {
        None => None,
        Some((name, at1)) => match read_i32(bytes, at1) {
            None => None,
            Some((id, at2)) => match read_str(bytes, at2) {
                None => None,
                Some((ip_address, at3)) => match read_role(bytes, at3) {
                    None => None,
                    Some((role, at4)) => match read_player_type(bytes, at4) {
                        None => None,
                        Some((player_type, at5)) => match read_i32(bytes, at5) {
                            None => None,
                            Some((score, at6)) => Some(
                                (GamePlayer { name, id, ip_address, role, player_type, score }, at6),
                            ),
                        },
                    },
                },
            },
        },
    }
}

/// The reader's result is the list of players that the decoder found.
pub open spec fn parsed_players(
    r: Option<(Vec<GamePlayer>, usize)>,
    bytes: Seq<u8>,
    pos: usize,
    expected: Option<(Seq<PlayerView>, Seq<u8>)>,
) -> bool {
    match expected {
        None => r is None,
        Some((v, rest)) => match r {
            None => false,
            Some((got, next)) => player_views(got@) == v && pos <= next <= bytes.len() && bytes.skip(
                next as int,
            ) == rest,
        },
    }
}

pub fn write_players(out: &mut Vec<u8>, list: &Vec<GamePlayer>)
    ensures
        final(out)@ == old(out)@ + enc_list(player_views(list@), player_enc()),
{
    write_count(out, list.len());
    let ghost base = out@;
    let mut i: usize = 0;
    proof {
        assert(out@ =~= base + enc_items(player_views(list@).subrange(0, 0), player_enc()));
    }
    while i < list.len()
        invariant
            i <= list.len(),
            out@ == base + enc_items(player_views(list@).subrange(0, i as int), player_enc()),
        decreases list.len() - i,
    {
        write_player(out, &list[i]);
        proof {
            assert(player_views(list@).subrange(0, i + 1).drop_last() =~= player_views(list@).subrange(0, i as int));
            assert(player_views(list@).subrange(0, i + 1).last() == list@[i as int]@);
            assert(out@ =~= base + enc_items(player_views(list@).subrange(0, i + 1), player_enc()));
        }
        i += 1;
    }
    proof {
        assert(player_views(list@).subrange(0, i as int) =~= player_views(list@));
        assert(out@ =~= old(out)@ + enc_list(player_views(list@), player_enc()));
    }
}

pub fn read_players(bytes: &Vec<u8>, pos: usize) -> (r: Option<(Vec<GamePlayer>, usize)>)
    requires
        pos <= bytes.len(),
    ensures
        parsed_players(r, bytes@, pos, dec_list(bytes@.skip(pos as int), player_dec())),
{
    match read_u16(bytes, pos) {
        None => None,
        Some((n, start)) => {
            let mut list: Vec<GamePlayer> = Vec::new();
            let mut at: usize = start;
            let mut i: u16 = 0;
            proof {
                assert(player_views(list@) =~= Seq::<PlayerView>::empty());
            }
            while i < n
                invariant
                    i <= n,
                    pos <= start <= at <= bytes.len(),
                    crate::wire::dec_u16(bytes@.skip(pos as int)) == Some(
                        (n, bytes@.skip(start as int)),
                    ),
                    dec_items(bytes@.skip(start as int), i as nat, player_dec()) == Some(
                        (player_views(list@), bytes@.skip(at as int)),
                    ),
                decreases n - i,
            {
                let ghost before = player_views(list@);
                match read_player(bytes, at) {
                    None => {
                        proof {
                            assert(player_dec()(bytes@.skip(at as int)) is None);
                            assert(dec_items(
                                bytes@.skip(start as int),
                                (i + 1) as nat,
                                player_dec(),
                            ) is None);
                            lemma_items_fail(
                                bytes@.skip(start as int),
                                (i + 1) as nat,
                                n as nat,
                                player_dec(),
                            );
                        }
                        return None;
                    },
                    Some((item, next)) => {
                        list.push(item);
                        at = next;
                        proof {
                            assert(player_views(list@) =~= before.push(item@));
                        }
                    },
                }
                i += 1;
            }
            Some((list, at))
        },
    }
}

// ---------------------------------------------------------------- snapshots

pub fn write_state(out: &mut Vec<u8>, s: &GameState)
    ensures
        final(out)@ == old(out)@ + enc_state(s@),
{
    write_i32(out, s.state_order);
    write_snakes(out, &s.snakes);
    write_coords(out, &s.foods);
    write_players(out, &s.players);
    proof {
        assert(out@ =~= old(out)@ + enc_state(s@));
    }
}

pub fn read_state(bytes: &Vec<u8>, pos: usize) -> (r: Option<(GameState, usize)>)
    requires
        pos <= bytes.len(),
    ensures
        parsed_view(r, bytes@, pos, dec_state(bytes@.skip(pos as int))),
{
    reveal(dec_state);
    match read_i32(bytes, pos) {
        None => None,
        Some((state_order, at1)) => match read_snakes(bytes, at1) {
            None => None,
            Some((snakes, at2)) => match read_coords(bytes, at2) {
                None => None,
                Some((foods, at3)) => match read_players(bytes, at3) {
                    None => None,
                    Some((players, at4)) => Some(
                        (GameState { state_order, snakes, foods, players }, at4),
                    ),
                },
            },
        },
    }
}

// ---------------------------------------------------------------- advertisements

pub fn write_announcement(out: &mut Vec<u8>, a: &GameAnnouncement)
    ensures
        final(out)@ == old(out)@ + enc_announcement(a@),
{
    write_players(out, &a.players);
    write_config(out, &a.config);
    write_bool(out, a.can_join);
    write_str(out, &a.game_name);
    proof {
        assert(out@ =~= old(out)@ + enc_announcement(a@));
    }
}

pub fn read_announcement(bytes: &Vec<u8>, pos: usize) -> (r: Option<(GameAnnouncement, usize)>)
    requires
        pos <= bytes.len(),
    ensures
        parsed_view(r, bytes@, pos, dec_announcement(bytes@.skip(pos as int))),
{
    reveal(dec_announcement);
    match read_players(bytes, pos) {
        None => None,
        Some((players, at1)) => match read_config(bytes, at1) {
            None => None,
            Some((config, at2)) => match read_bool(bytes, at2) {
                None => None,
                Some((can_join, at3)) => match read_str(bytes, at3) {
                    None => None,
                    Some((game_name, at4)) => Some(
                        (GameAnnouncement { players, config, can_join, game_name }, at4),
                    ),
                },
            },
        },
    }
}

/// The reader's result is the list of announcements that the decoder found.
pub open spec fn parsed_announcements(
    r: Option<(Vec<GameAnnouncement>, usize)>,
    bytes: Seq<u8>,
    pos: usize,
    expected: Option<(Seq<AnnouncementView>, Seq<u8>)>,
) -> bool {
    match expected {
        None => r is None,
        Some((v, rest)) => match r {
            None => false,
            Some((got, next)) => announcement_views(got@) == v && pos <= next <= bytes.len() && bytes.skip(
                next as int,
            ) == rest,
        },
    }
}

pub fn write_announcements(out: &mut Vec<u8>, list: &Vec<GameAnnouncement>)
    ensures
        final(out)@ == old(out)@ + enc_list(announcement_views(list@), announcement_enc()),
{
    write_count(out, list.len());
    let ghost base = out@;
    let mut i: usize = 0;
    proof {
        assert(out@ =~= base + enc_items(announcement_views(list@).subrange(0, 0), announcement_enc()));
    }
    while i < list.len()
        invariant
            i <= list.len(),
            out@ == base + enc_items(announcement_views(list@).subrange(0, i as int), announcement_enc()),
        decreases list.len() - i,
    {
        write_announcement(out, &list[i]);
        proof {
            assert(announcement_views(list@).subrange(0, i + 1).drop_last() =~= announcement_views(list@).subrange(0, i as int));
            assert(announcement_views(list@).subrange(0, i + 1).last() == list@[i as int]@);
            assert(out@ =~= base + enc_items(announcement_views(list@).subrange(0, i + 1), announcement_enc()));
        }
        i += 1;
    }
    proof {
        assert(announcement_views(list@).subrange(0, i as int) =~= announcement_views(list@));
        assert(out@ =~= old(out)@ + enc_list(announcement_views(list@), announcement_enc()));
    }
}

pub fn read_announcements(bytes: &Vec<u8>, pos: usize) -> (r: Option<(Vec<GameAnnouncement>, usize)>)
    requires
        pos <= bytes.len(),
    ensures
        parsed_announcements(r, bytes@, pos, dec_list(bytes@.skip(pos as int), announcement_dec())),
{
    match read_u16(bytes, pos) {
        None => None,
        Some((n, start)) => {
            let mut list: Vec<GameAnnouncement> = Vec::new();
            let mut at: usize = start;
            let mut i: u16 = 0;
            proof {
                assert(announcement_views(list@) =~= Seq::<AnnouncementView>::empty());
            }
            while i < n
                invariant
                    i <= n,
                    pos <= start <= at <= bytes.len(),
                    crate::wire::dec_u16(bytes@.skip(pos as int)) == Some(
                        (n, bytes@.skip(start as int)),
                    ),
                    dec_items(bytes@.skip(start as int), i as nat, announcement_dec()) == Some(
                        (announcement_views(list@), bytes@.skip(at as int)),
                    ),
                decreases n - i,
            {
                let ghost before = announcement_views(list@);
                match read_announcement(bytes, at) {
                    None => {
                        proof {
                            assert(announcement_dec()(bytes@.skip(at as int)) is None);
                            assert(dec_items(
                                bytes@.skip(start as int),
                                (i + 1) as nat,
                                announcement_dec(),
                            ) is None);
                            lemma_items_fail(
                                bytes@.skip(start as int),
                                (i + 1) as nat,
                                n as nat,
                                announcement_dec(),
                            );
                        }
                        return None;
                    },
                    Some((item, next)) => {
                        list.push(item);
                        at = next;
                        proof {
                            assert(announcement_views(list@) =~= before.push(item@));
                        }
                    },
                }
                i += 1;
            }
            Some((list, at))
        },
    }
}

// ---------------------------------------------------------------- payloads

pub fn write_payload(out: &mut Vec<u8>, p: &Payload)
    ensures
        final(out)@ == old(out)@ + enc_payload(p@),
{
    match p {
        Payload::Ping => {
            write_u8(out, 2);
        },
        Payload::Steer { direction } => {
            write_u8(out, 3);
            write_direction(out, *direction);
        },
        Payload::Ack => {
            write_u8(out, 4);
        },
        Payload::State { state } => {
            write_u8(out, 5);
            write_state(out, state);
        },
        Payload::Announcement { games } => {
            write_u8(out, 6);
            write_announcements(out, games);
        },
        Payload::Join { player_type, player_name, game_name, requested_role } => {
            write_u8(out, 7);
            write_player_type(out, *player_type);
            write_str(out, player_name);
            write_str(out, game_name);
            write_role(out, *requested_role);
        },
        Payload::Error { error_message } => {
            write_u8(out, 8);
            write_str(out, error_message);
        },
        Payload::RoleChange { sender_role, receiver_role } => {
            write_u8(out, 9);
            write_opt_role(out, *sender_role);
            write_opt_role(out, *receiver_role);
        },
        Payload::Discover => {
            write_u8(out, 12);
        },
    }
    proof {
        assert(out@ =~= old(out)@ + enc_payload(p@));
    }
}

pub fn read_join(bytes: &Vec<u8>, pos: usize) -> (r: Option<(Payload, usize)>)
    requires
        pos <= bytes.len(),
    ensures
        parsed_view(r, bytes@, pos, dec_join(bytes@.skip(pos as int))),
{
    reveal(dec_join);
    match read_player_type(bytes, pos) {
        None => None,
        Some((player_type, at1)) => match read_str(bytes, at1) {
            None => None,
            Some((player_name, at2)) => match read_str(bytes, at2) {
                None => None,
                Some((game_name, at3)) => match read_role(bytes, at3) {
                    None => None,
                    Some((requested_role, at4)) => Some(
                        (Payload::Join { player_type, player_name, game_name, requested_role }, at4),
                    ),
                },
            },
        },
    }
}

pub fn read_role_change(bytes: &Vec<u8>, pos: usize) -> (r: Option<(Payload, usize)>)
    requires
        pos <= bytes.len(),
    ensures
        parsed_view(r, bytes@, pos, dec_role_change(bytes@.skip(pos as int))),
{
    reveal(dec_role_change);
    match read_opt_role(bytes, pos) {
        None => None,
        Some((sender_role, at1)) => match read_opt_role(bytes, at1) {
            None => None,
            Some((receiver_role, at2)) => Some((Payload::RoleChange { sender_role, receiver_role }, at2)),
        },
    }
}

pub fn read_contents(tag: u8, bytes: &Vec<u8>, pos: usize) -> (r: Option<(Payload, usize)>)
    requires
        pos <= bytes.len(),
    ensures
        parsed_view(r, bytes@, pos, dec_contents(tag, bytes@.skip(pos as int))),
{
    reveal(dec_contents);
    if tag == 2 {
        Some((Payload::Ping, pos))
    } else if tag == 3 {
        match read_direction(bytes, pos) {
            None => None,
            Some((direction, next)) => Some((Payload::Steer { direction }, next)),
        }
    } else if tag == 4 {
        Some((Payload::Ack, pos))
    } else if tag == 5 {
        match read_state(bytes, pos) {
            None => None,
            Some((state, next)) => Some((Payload::State { state }, next)),
        }
    } else if tag == 6 {
        match read_announcements(bytes, pos) {
            None => None,
            Some((games, next)) => Some((Payload::Announcement { games }, next)),
        }
    } else if tag == 7 {
        read_join(bytes, pos)
    } else if tag == 8 {
        match read_str(bytes, pos) {
            None => None,
            Some((error_message, next)) => Some((Payload::Error { error_message }, next)),
        }
    } else if tag == 9 {
        read_role_change(bytes, pos)
    } else if tag == 12 {
        Some((Payload::Discover, pos))
    } else {
        None
    }
}

pub fn read_payload(bytes: &Vec<u8>, pos: usize) -> (r: Option<(Payload, usize)>)
    requires
        pos <= bytes.len(),
    ensures
        parsed_view(r, bytes@, pos, dec_payload(bytes@.skip(pos as int))),
{
    reveal(dec_payload);
    match read_u8(bytes, pos) {
        None => None,
        Some((tag, next)) => read_contents(tag, bytes, next),
    }
}

// ---------------------------------------------------------------- messages

/// The bytes of a message, whatever their number.
pub fn write_message(out: &mut Vec<u8>, m: &GameMessage)
    ensures
        final(out)@ == old(out)@ + enc_message(m@),
{
    write_i64(out, m.msg_seq);
    write_opt_i32(out, m.sender_id);
    write_opt_i32(out, m.receiver_id);
    write_payload(out, &m.payload);
    proof {
        assert(out@ =~= old(out)@ + enc_message(m@));
    }
}

pub fn read_message(bytes: &Vec<u8>, pos: usize) -> (r: Option<(GameMessage, usize)>)
    requires
        pos <= bytes.len(),
    ensures
        parsed_view(r, bytes@, pos, dec_message(bytes@.skip(pos as int))),
{
    match read_i64(bytes, pos) {
        None => None,
        Some((msg_seq, at1)) => match read_opt_i32(bytes, at1) {
            None => None,
            Some((sender_id, at2)) => match read_opt_i32(bytes, at2) {
                None => None,
                Some((receiver_id, at3)) => match read_payload(bytes, at3) {
                    None => None,
                    Some((payload, at4)) => Some(
                        (GameMessage { msg_seq, sender_id, receiver_id, payload }, at4),
                    ),
                },
            },
        },
    }
}

/// The datagram that carries the message, or `None` where the message
/// does not fit into one.
pub fn encode(m: &GameMessage) -> (r: Option<Vec<u8>>)
    ensures
        r is Some <==> fits(m@),
        r is Some ==> r->0@ == enc_message(m@),
{
    let mut out: Vec<u8> = Vec::new();
    write_message(&mut out, m);
    proof {
        assert(out@ =~= enc_message(m@));
    }
    if out.len() <= MAX_DATAGRAM {
        Some(out)
    } else {
        None
    }
}

/// The message that the datagram carries, or `None` where the bytes are
/// not one message and nothing else.
pub fn decode(bytes: &Vec<u8>) -> (r: Option<GameMessage>)
    ensures
        match parse(bytes@) {
            None => r is None,
            Some(m) => r is Some && r->0@ == m,
        },
{
    proof {
        assert(bytes@.skip(0) =~= bytes@);
    }
    match read_message(bytes, 0) {
        None => None,
        Some((m, next)) => if next == bytes.len() {
            Some(m)
        } else {
            None
        },
    }
}

} // verus!
