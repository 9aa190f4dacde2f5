//! The master of a game: it owns the world, admits players, takes their
//! commands, and tells every peer the state after each tick.
//!
//! The master does no I/O. Whoever drives it hands it the messages that
//! came in, each with its sender's address and the time in milliseconds,
//! and sends the datagrams that it hands back.

use vstd::prelude::*;
use crate::text::copy_text;
use vstd::string::StringExecFns;
use crate::base::{copy_players, player_views};
use crate::base::{Config, Coord, Direction, GamePlayer, NodeRole, PlayerType, PlayerView, Snake};
use crate::base::{SnakeState, SnakeView};
use crate::channel::{datagram_views, elapsed, elapsed_ms, Datagram, DatagramView};
use crate::channel::{ChannelView, ReliableChannel};
use crate::codec::encode;
use crate::format::{enc_message, fits};
use crate::message::{AnnouncementView, GameAnnouncement, GameMessage, MessageView, Payload};
use crate::message::PayloadView;
use crate::peers::{channels_wf, find_peer, peer_index, peer_views, Peer};
use crate::peers::PeerView;
use crate::world::{Game, GameView};

verus! {

/// The time between two advertisements of a game, in milliseconds.
pub const ANNOUNCE_PERIOD_MS: u64 = 1000;

/// The state of a master.
#[derive(Clone, Debug)]
pub struct Server {
    pub game: Game,
    /// The name under which the game is advertised.
    pub name: String,
    /// The sequence number of the next message that is no answer and waits for none.
    pub seq: i64,
    /// The id of the master's own player.
    pub id: i32,
    /// The id that the next player gets.
    pub player_id: i32,
    pub peers: Vec<Peer>,
    /// When the game was last advertised.
    pub multicast_time: u64,
    /// When the game last ticked.
    pub game_time: u64,
}

/// The mathematical value of a [`Server`].
pub struct ServerView {
    pub game: GameView,
    pub name: Seq<char>,
    pub seq: i64,
    pub id: i32,
    pub player_id: i32,
    pub peers: Seq<PeerView>,
    pub multicast_time: u64,
    pub game_time: u64,
}

impl View for Server {
    type V = ServerView;

    open spec fn view(&self) -> ServerView {
        ServerView {
            game: self.game@,
            name: self.name@,
            seq: self.seq,
            id: self.id,
            player_id: self.player_id,
            peers: peer_views(self.peers@),
            multicast_time: self.multicast_time,
            game_time: self.game_time,
        }
    }
}

/// The datagram that carries the message to `addr`, if the message fits into one.
pub open spec fn datagram_for(addr: Seq<char>, m: MessageView) -> Seq<DatagramView> {
    if fits(m) {
        seq![DatagramView { addr, bytes: enc_message(m) }]
    } else {
        Seq::empty()
    }
}

/// The players from the first on that make the advertisement fit into a
/// datagram: the oldest are left out.
pub open spec fn advertised(
    seq: i64,
    id: i32,
    players: Seq<PlayerView>,
    config: Config,
    name: Seq<char>,
) -> Seq<PlayerView>
    decreases players.len(),
{
    if players.len() == 0 || fits(announcement_of(seq, id, players, config, name)) {
        players
    } else {
        advertised(seq, id, players.skip(1), config, name)
    }
}

/// The advertisement of a game with the given players.
pub open spec fn announcement_of(
    seq: i64,
    id: i32,
    players: Seq<PlayerView>,
    config: Config,
    name: Seq<char>,
) -> MessageView {
    MessageView {
        msg_seq: seq,
        sender_id: Some(id),
        receiver_id: None,
        payload: PayloadView::Announcement {
            games: seq![AnnouncementView { players, config, can_join: true, game_name: name }],
        },
    }
}

impl ServerView {
    /// The game is well formed, and so is the channel to every peer. The
    /// peers are a map from addresses: no two peers share an address.
    pub open spec fn wf(self) -> bool {
        &&& self.game.wf()
        &&& channels_wf(self.peers)
        &&& crate::peers::addrs_distinct(self.peers)
    }

    /// The acknowledgement of a message with the sequence number `seq`.
    pub open spec fn ack(self, seq: i64, receiver: Option<i32>) -> MessageView {
        MessageView {
            msg_seq: seq,
            sender_id: Some(self.id),
            receiver_id: receiver,
            payload: PayloadView::Ack,
        }
    }

    /// The advertisement of the game: it lists as many of the latest
    /// players as fit into a datagram.
    pub open spec fn announcement(self) -> MessageView {
        announcement_of(
            self.seq,
            self.id,
            advertised(self.seq, self.id, self.game.players, self.game.config, self.name),
            self.game.config,
            self.name,
        )
    }
}

/// The sequence number or id after `v`, held at the largest value.
pub open spec fn id_after(v: i32) -> i32 {
    if v == i32::MAX {
        i32::MAX
    } else {
        (v + 1) as i32
    }
}

/// The datagram that carries the message to `addr`, if the message fits into one.
pub fn datagram_to(addr: &String, m: &GameMessage) -> (out: Vec<Datagram>)
    ensures
        datagram_views(out@) == datagram_for(addr@, m@),
{
    let mut out: Vec<Datagram> = Vec::new();
    match encode(m) {
        Some(bytes) => {
            out.push(Datagram { addr: copy_text(addr), bytes });
        },
        None => {},
    }
    proof {
        assert(datagram_views(out@) =~= datagram_for(addr@, m@));
    }
    out
}

/// Puts the datagrams of `more` behind those of `out`.
pub fn append_datagrams(out: &mut Vec<Datagram>, more: Vec<Datagram>)
    ensures
        datagram_views(final(out)@) == datagram_views(old(out)@) + datagram_views(more@),
{
    let mut more = more;
    let ghost all = datagram_views(more@);
    let ghost base = datagram_views(out@);
    let mut tail: Vec<Datagram> = Vec::new();
    while more.len() > 0
        invariant
            datagram_views(out@) == base,
            all == datagram_views(more@) + datagram_views(tail@).reverse(),
        decreases more.len(),
    {
        let ghost before = datagram_views(more@);
        let ghost tail_before = datagram_views(tail@);
        let d = more.pop().unwrap();
        tail.push(d);
        proof {
            assert(datagram_views(more@) =~= before.drop_last());
            assert(datagram_views(tail@) =~= tail_before.push(d@));
            assert(datagram_views(tail@).reverse() =~= seq![d@] + tail_before.reverse());
            assert(all =~= datagram_views(more@) + datagram_views(tail@).reverse());
        }
    }
    proof {
        assert(datagram_views(more@) =~= Seq::empty());
        assert(base + all =~= datagram_views(out@) + datagram_views(tail@).reverse());
    }
    while tail.len() > 0
        invariant
            base + all == datagram_views(out@) + datagram_views(tail@).reverse(),
        decreases tail.len(),
    {
        let ghost tail_before = datagram_views(tail@);
        let ghost out_before = datagram_views(out@);
        let d = tail.pop().unwrap();
        out.push(d);
        proof {
            assert(datagram_views(tail@) =~= tail_before.drop_last());
            assert(datagram_views(out@) =~= out_before.push(d@));
            assert(tail_before.reverse() =~= seq![d@] + datagram_views(tail@).reverse());
            assert(base + all =~= datagram_views(out@) + datagram_views(tail@).reverse());
        }
    }
    proof {
        assert(datagram_views(tail@).reverse() =~= Seq::empty());
        assert(base + all =~= datagram_views(out@));
    }
}

impl Server {
    /// The master is well formed; see [`ServerView::wf`].
    pub open spec fn wf(&self) -> bool {
        self@.wf()
    }

    /// A master of a new game, at the time `now`.
    pub fn new(config: Config, name: String, now: u64) -> (s: Server)
        requires
            config.valid(),
        ensures
            s.wf(),
            s@ == (ServerView {
                game: GameView::blank(config),
                name: name@,
                seq: 0,
                id: 0,
                player_id: 1,
                peers: Seq::empty(),
                multicast_time: now,
                game_time: now,
            }),
    {
        let s = Server {
            game: Game::new(config),
            name,
            seq: 0,
            id: 0,
            player_id: 1,
            peers: Vec::new(),
            multicast_time: now,
            game_time: now,
        };
        proof {
            assert(s@.peers =~= Seq::empty());
        }
        s
    }

    /// The acknowledgement of a message with the sequence number `seq`, as
    /// a datagram to `addr`.
    pub fn send_ack(&self, seq: i64, receiver_id: Option<i32>, addr: &String) -> (out: Vec<Datagram>)
        ensures
            datagram_views(out@) == datagram_for(addr@, self@.ack(seq, receiver_id)),
    {
        let m = GameMessage {
            msg_seq: seq,
            sender_id: Some(self.id),
            receiver_id,
            payload: Payload::Ack,
        };
        datagram_to(addr, &m)
    }

    /// The advertisement of the game. It takes the next sequence number.
    pub fn get_announcement(&mut self) -> (m: GameMessage)
        ensures
            m@ == old(self)@.announcement(),
            final(self)@ == (ServerView { seq: crate::channel::seq_after(old(self)@.seq), ..old(self)@ }),
    {
        let mut players: Vec<GamePlayer> = copy_players(&self.game.players);
        let ghost all = player_views(players@);
        loop
            invariant
                self@ == old(self)@,
                advertised(self.seq, self.id, all, self.game.config, self.name@) == advertised(
                    self.seq,
                    self.id,
                    player_views(players@),
                    self.game.config,
                    self.name@,
                ),
                all == self@.game.players,
            decreases players.len(),
        {
            let m = GameMessage {
                msg_seq: self.seq,
                sender_id: Some(self.id),
                receiver_id: None,
                payload: Payload::Announcement {
                    games: vec![
                        GameAnnouncement {
                            players: copy_players(&players),
                            config: self.game.config,
                            can_join: true,
                            game_name: copy_text(&self.name),
                        },
                    ],
                },
            };
            proof {
                assert(m@.payload->Announcement_games =~= seq![
                    AnnouncementView {
                        players: player_views(players@),
                        config: self.game.config,
                        can_join: true,
                        game_name: self.name@,
                    },
                ]);
                assert(m@ == announcement_of(
                    self.seq,
                    self.id,
                    player_views(players@),
                    self.game.config,
                    self.name@,
                ));
            }
            if players.len() == 0 || encode(&m).is_some() {
                self.seq = if self.seq == i64::MAX { i64::MAX } else { self.seq + 1 };
                return m;
            }
            let ghost before = player_views(players@);
            players.remove(0);
            proof {
                assert(player_views(players@) =~= before.skip(1));
            }
        }
    }

    /// Advertises the game if the last advertisement is a second old or
    /// older: the datagram goes to the multicast group `group`.
    pub fn do_multicast(&mut self, now: u64, group: &String) -> (out: Vec<Datagram>)
        ensures
            elapsed(now, old(self).multicast_time) < ANNOUNCE_PERIOD_MS ==> final(self)@ == old(self)@ && out@.len() == 0,
            elapsed(now, old(self).multicast_time) >= ANNOUNCE_PERIOD_MS ==> final(self)@ == (
            ServerView {
                seq: crate::channel::seq_after(old(self)@.seq),
                multicast_time: now,
                ..old(self)@
            }) && datagram_views(out@) == datagram_for(group@, old(self)@.announcement()),
    {
        if elapsed_ms(now, self.multicast_time) >= ANNOUNCE_PERIOD_MS {
            let m = self.get_announcement();
            self.multicast_time = now;
            datagram_to(group, &m)
        } else {
            Vec::new()
        }
    }
}

/// The snake of a player that enters the board at the given place: the
/// head, the tail, and the direction from the tail to the head.
pub open spec fn new_snake(id: i32, room: (Coord, Coord, Direction)) -> SnakeView {
    SnakeView {
        player_id: id,
        body: seq![room.1, room.0],
        direction: room.2,
        state: SnakeState::ALIVE,
    }
}

/// The answer to a player for whose snake the board has no room.
pub open spec fn no_room_error() -> MessageView {
    MessageView {
        msg_seq: 0,
        sender_id: None,
        receiver_id: None,
        payload: PayloadView::Error { error_message: "no available space for snake"@ },
    }
}

/// The channel to a peer that has just been heard of for the first time.
pub open spec fn fresh_channel(now: u64) -> ChannelView {
    ChannelView {
        next_seq: 0,
        last_applied_seq: -1i64,
        pending: Seq::empty(),
        last_seen_time: now,
        ping_seq: -1i64,
    }
}

impl ServerView {
    /// The master with another channel to its `i`-th peer.
    pub open spec fn with_channel(self, i: int, c: ChannelView) -> ServerView {
        ServerView { peers: self.peers.update(i, PeerView { channel: c, ..self.peers[i] }), ..self }
    }

    /// The master with another game.
    pub open spec fn with_game(self, game: GameView) -> ServerView {
        ServerView { game, ..self }
    }

    /// The master after the peer at `addr`, if it knows one, has given a
    /// sign of life.
    pub open spec fn heard(self, addr: Seq<char>, now: u64) -> ServerView {
        match peer_index(self.peers, addr) {
            Some(i) => self.with_channel(
                i,
                ChannelView { last_seen_time: now, ..self.peers[i].channel },
            ),
            None => self,
        }
    }

    /// The master after the peer at `addr`, if it knows one, has
    /// acknowledged the message with the sequence number `seq`.
    pub open spec fn acknowledged(self, addr: Seq<char>, seq: i64, now: u64) -> ServerView {
        match peer_index(self.peers, addr) {
            Some(i) => self.with_channel(
                i,
                ChannelView {
                    pending: crate::channel::acked(self.peers[i].channel.pending, seq),
                    last_seen_time: now,
                    ..self.peers[i].channel
                },
            ),
            None => self,
        }
    }

    /// The board has room for a snake of the player `id` at the given place.
    pub open spec fn has_room(self, id: i32, room: Option<(Coord, Coord, Direction)>) -> bool {
        room is Some && self.game.admits(new_snake(id, room->0))
    }

    /// A player that asks to join is admitted: it asks to view, or the
    /// board has room for its snake.
    pub open spec fn admits(self, requested: NodeRole, room: Option<(Coord, Coord, Direction)>) -> bool {
        requested == NodeRole::VIEWER || self.has_room(self.player_id, room)
    }

    /// The master after a node at `addr` has asked to join. A node that is
    /// admitted is recorded as a player with the role that it asked for.
    pub open spec fn joined(
        self,
        addr: Seq<char>,
        player_name: Seq<char>,
        player_type: PlayerType,
        requested: NodeRole,
        room: Option<(Coord, Coord, Direction)>,
        now: u64,
    ) -> ServerView {
        let id = self.player_id;
        if self.admits(requested, room) {
            let player = PlayerView {
                name: player_name,
                id,
                ip_address: addr,
                role: requested,
                player_type,
                score: 0,
            };
            let board = if requested == NodeRole::VIEWER {
                self.game
            } else {
                self.game.with_snake(new_snake(id, room->0))
            };
            ServerView {
                game: board.with_player(player),
                peers: crate::peers::peers_without(self.peers, addr).push(
                    PeerView { addr, player_id: id, channel: fresh_channel(now) },
                ),
                player_id: id_after(id),
                ..self
            }
        } else {
            ServerView { player_id: id_after(id), ..self }
        }
    }

    /// The game after the player `id` has asked for the role `requested`.
    pub open spec fn game_after_role_request(
        self,
        id: i32,
        requested: Option<NodeRole>,
        room: Option<(Coord, Coord, Direction)>,
    ) -> GameView {
        match crate::roles::player_index(self.game.players, id) {
            None => self.game,
            Some(p) => {
                let playing = self.game.players[p].role != NodeRole::VIEWER;
                if requested == Some(NodeRole::VIEWER) && playing {
                    self.game.with_snake_state(id, SnakeState::ZOMBIE).with_role(id, NodeRole::VIEWER)
                } else if requested == Some(NodeRole::NORMAL) && !playing {
                    if crate::roles::snake_index(self.game.snakes, id) is Some {
                        self.game.with_snake_state(id, SnakeState::ALIVE).with_role(
                            id,
                            NodeRole::NORMAL,
                        )
                    } else if self.has_room(id, room) {
                        self.game.with_snake(new_snake(id, room->0)).with_role(id, NodeRole::NORMAL)
                    } else {
                        self.game
                    }
                } else {
                    self.game
                }
            },
        }
    }

    /// The master after the peer at `addr` has asked for the role `requested`.
    pub open spec fn role_changed(
        self,
        addr: Seq<char>,
        requested: Option<NodeRole>,
        room: Option<(Coord, Coord, Direction)>,
        now: u64,
    ) -> ServerView {
        match peer_index(self.peers, addr) {
            None => self,
            Some(i) => self.with_game(
                self.game_after_role_request(self.peers[i].player_id, requested, room),
            ).heard(addr, now),
        }
    }

    /// The master after the peer at `addr` has asked to steer its snake.
    pub open spec fn steered(self, addr: Seq<char>, d: Direction, now: u64) -> ServerView {
        match peer_index(self.peers, addr) {
            None => self,
            Some(i) => self.with_game(self.game.steered(self.peers[i].player_id, d)).heard(addr, now),
        }
    }

    /// The master after the message `m` has come in from `from` at the time
    /// `now`. `room` is where the board has room for a new snake, if a
    /// snake is to enter.
    pub open spec fn received(
        self,
        m: MessageView,
        from: Seq<char>,
        now: u64,
        room: Option<(Coord, Coord, Direction)>,
    ) -> ServerView {
        match m.payload {
            PayloadView::Ping => self.heard(from, now),
            PayloadView::Ack => self.acknowledged(from, m.msg_seq, now),
            PayloadView::Announcement { .. } => self,
            PayloadView::State { .. } => self,
            PayloadView::Discover => ServerView { seq: crate::channel::seq_after(self.seq), ..self },
            PayloadView::Error { .. } => self.heard(from, now),
            PayloadView::Join { player_type, player_name, game_name, requested_role } => self.joined(
                from,
                player_name,
                player_type,
                requested_role,
                room,
                now,
            ),
            PayloadView::RoleChange { sender_role, receiver_role } => self.role_changed(
                from,
                sender_role,
                room,
                now,
            ),
            PayloadView::Steer { direction } => self.steered(from, direction, now),
        }
    }

    /// The datagrams with which the master answers the message `m` from `from`.
    pub open spec fn replies(
        self,
        m: MessageView,
        from: Seq<char>,
        room: Option<(Coord, Coord, Direction)>,
    ) -> Seq<DatagramView> {
        match m.payload {
            PayloadView::Ping => datagram_for(from, self.ack(m.msg_seq, m.sender_id)),
            PayloadView::Ack => Seq::empty(),
            PayloadView::Announcement { .. } => Seq::empty(),
            PayloadView::State { .. } => Seq::empty(),
            PayloadView::Discover => datagram_for(from, self.announcement()),
            PayloadView::Error { .. } => datagram_for(from, self.ack(m.msg_seq, m.sender_id)),
            PayloadView::Join { player_type, player_name, game_name, requested_role } => datagram_for(
                from,
                self.ack(m.msg_seq, Some(self.player_id)),
            ) + (if self.admits(requested_role, room) {
                Seq::empty()
            } else {
                datagram_for(from, no_room_error())
            }),
            PayloadView::RoleChange { .. } => datagram_for(from, self.ack(m.msg_seq, m.sender_id)),
            PayloadView::Steer { .. } => if peer_index(self.peers, from) is Some {
                datagram_for(from, self.ack(m.msg_seq, m.sender_id))
            } else {
                Seq::empty()
            },
        }
    }

    /// Whether the answer to the message depends on where the board has
    /// room for a new snake.
    pub open spec fn asks_for_room(self, m: MessageView) -> bool {
        match m.payload {
            PayloadView::Join { requested_role, .. } => requested_role != NodeRole::VIEWER,
            PayloadView::RoleChange { sender_role, .. } => sender_role == Some(NodeRole::NORMAL),
            _ => false,
        }
    }
}

/// Players with distinct ids in place of the players of a well-formed game
/// leave it well formed.
pub proof fn lemma_with_players(v: GameView, players: Seq<PlayerView>)
    requires
        crate::world::ids_distinct(players),
    ensures
        v.wf() ==> v.with_players(players).wf(),
        v.consistent() ==> v.with_players(players).consistent(),
{
    assert(v.with_players(players).bodies() == v.bodies());
}

/// A request for a role leaves a well-formed game well formed.
pub proof fn lemma_role_request(
    s: ServerView,
    id: i32,
    requested: Option<NodeRole>,
    room: Option<(Coord, Coord, Direction)>,
)
    requires
        s.game.wf(),
    ensures
        s.game_after_role_request(id, requested, room).wf(),
{
    let g = s.game;
    crate::roles::lemma_with_snake_state(g, id, SnakeState::ZOMBIE);
    crate::roles::lemma_with_snake_state(g, id, SnakeState::ALIVE);
    crate::roles::lemma_with_role(g.with_snake_state(id, SnakeState::ZOMBIE), id, NodeRole::VIEWER);
    crate::roles::lemma_with_role(g.with_snake_state(id, SnakeState::ALIVE), id, NodeRole::NORMAL);
    if s.has_room(id, room) {
        crate::spawn::lemma_with_snake(g, new_snake(id, room->0));
        crate::roles::lemma_with_role(g.with_snake(new_snake(id, room->0)), id, NodeRole::NORMAL);
    }
}

impl Server {
    /// Takes note of a sign of life of the peer at `addr`, if there is one.
    pub fn update_timeout(&mut self, addr: &String, now: u64)
        requires
            old(self).wf(),
        ensures
            final(self)@ == old(self)@.heard(addr@, now),
            final(self).wf(),
    {
        match find_peer(&self.peers, addr) {
            Some(i) => {
                self.peers[i].channel.heard(now);
                proof {
                    assert(self@.peers =~= old(self)@.heard(addr@, now).peers);
                }
            },
            None => {},
        }
    }

    /// Takes note that the peer at `addr`, if there is one, has
    /// acknowledged the message with the sequence number `seq`.
    pub fn ack_pending(&mut self, addr: &String, seq: i64, now: u64)
        requires
            old(self).wf(),
        ensures
            final(self)@ == old(self)@.acknowledged(addr@, seq, now),
            final(self).wf(),
    {
        match find_peer(&self.peers, addr) {
            Some(i) => {
                proof {
                    assert(self@.peers[i as int].channel.wf());
                }
                self.peers[i].channel.on_ack(seq, now);
                proof {
                    assert(self@.peers =~= old(self)@.acknowledged(addr@, seq, now).peers);
                }
            },
            None => {},
        }
    }

    /// Admits the node at `addr` as a player, if it asks to view or the
    /// board has room for its snake at `room`. Returns the id that the
    /// player was given, and whether it was admitted. The id is used up
    /// either way.
    pub fn add_player(
        &mut self,
        addr: &String,
        player_name: &String,
        player_type: PlayerType,
        requested: NodeRole,
        room: Option<(Coord, Coord, Direction)>,
        now: u64,
    ) -> (r: (i32, bool))
        requires
            old(self).wf(),
        ensures
            final(self)@ == old(self)@.joined(addr@, player_name@, player_type, requested, room, now),
            final(self).wf(),
            r.0 == old(self)@.player_id,
            r.1 == old(self)@.admits(requested, room),
    {
        let id: i32 = self.player_id;
        let ghost v = self@;
        self.player_id = if id == i32::MAX { i32::MAX } else { id + 1 };
        let viewer: bool = requested == NodeRole::VIEWER;
        if !viewer {
            let placed: bool = match room {
                Some((head, tail, dir)) => {
                    let mut body: Vec<Coord> = Vec::new();
                    body.push(tail);
                    body.push(head);
                    let snake = Snake {
                        player_id: id,
                        body,
                        direction: dir,
                        state: SnakeState::ALIVE,
                    };
                    proof {
                        assert(snake@.body =~= new_snake(id, room->0).body);
                    }
                    self.game.add_snake(snake)
                },
                None => false,
            };
            if !placed {
                return (id, false);
            }
        }
        let player = GamePlayer {
            name: copy_text(player_name),
            id,
            ip_address: copy_text(addr),
            role: requested,
            player_type,
            score: 0,
        };
        self.game.add_player(player);
        proof {
            crate::peers::lemma_peers_without(v.peers, addr@);
        }
        crate::peers::remove_peers(&mut self.peers, addr);
        let ghost before = peer_views(self.peers@);
        let peer = Peer { addr: copy_text(addr), player_id: id, channel: ReliableChannel::new(now) };
        let ghost pv = peer@;
        self.peers.push(peer);
        proof {
            assert(peer_views(self.peers@) =~= before.push(pv));
            assert forall|i: int| 0 <= i < self@.peers.len() implies (
            #[trigger] self@.peers[i]).channel.wf() by {
                if i < before.len() {
                    assert(self@.peers[i] == before[i]);
                }
            }
        }
        (id, true)
    }

    /// Changes the role of the player of the peer at `addr`, if there is
    /// one, as it asks: a player that turns viewer leaves its snake behind
    /// as a zombie; a viewer that turns player gets its snake back if it
    /// is still on the board, and else a new one at `room` if the board
    /// has room there.
    pub fn change_role(
        &mut self,
        addr: &String,
        requested: Option<NodeRole>,
        room: Option<(Coord, Coord, Direction)>,
        now: u64,
    )
        requires
            old(self).wf(),
        ensures
            final(self)@ == old(self)@.role_changed(addr@, requested, room, now),
            final(self).wf(),
    {
        let ghost v = self@;
        match find_peer(&self.peers, addr) {
            None => {},
            Some(i) => {
                let id: i32 = self.peers[i].player_id;
                proof {
                    assert(v.peers[i as int].player_id == id);
                    lemma_role_request(v, id, requested, room);
                }
                match self.game.find_player(id) {
                    None => {},
                    Some(p) => {
                        let playing: bool = self.game.players[p].role != NodeRole::VIEWER;
                        proof {
                            assert(v.game.players[p as int] == self.game.players[p as int]@);
                        }
                        let to_viewer: bool = match requested {
                            Some(NodeRole::VIEWER) => true,
                            _ => false,
                        };
                        let to_normal: bool = match requested {
                            Some(NodeRole::NORMAL) => true,
                            _ => false,
                        };
                        if to_viewer && playing {
                            self.game.set_snake_state(id, SnakeState::ZOMBIE);
                            self.game.set_role(id, NodeRole::VIEWER);
                        } else if to_normal && !playing {
                            if self.game.find_snake(id).is_some() {
                                self.game.set_snake_state(id, SnakeState::ALIVE);
                                self.game.set_role(id, NodeRole::NORMAL);
                            } else {
                                let placed: bool = match room {
                                    Some((head, tail, dir)) => {
                                        let mut body: Vec<Coord> = Vec::new();
                                        body.push(tail);
                                        body.push(head);
                                        let snake = Snake {
                                            player_id: id,
                                            body,
                                            direction: dir,
                                            state: SnakeState::ALIVE,
                                        };
                                        proof {
                                            assert(snake@.body =~= new_snake(id, room->0).body);
                                        }
                                        self.game.add_snake(snake)
                                    },
                                    None => false,
                                };
                                if placed {
                                    self.game.set_role(id, NodeRole::NORMAL);
                                }
                            }
                        }
                    },
                }
                proof {
                    assert(self.game@ == v.game_after_role_request(id, requested, room));
                }
                self.update_timeout(addr, now);
            },
        }
    }

    /// Steers the snake of the peer at `addr`, if there is such a peer, and
    /// says whether there is.
    pub fn steer(&mut self, addr: &String, d: Direction, now: u64) -> (known: bool)
        requires
            old(self).wf(),
        ensures
            final(self)@ == old(self)@.steered(addr@, d, now),
            final(self).wf(),
            known == (peer_index(old(self)@.peers, addr@) is Some),
    {
        match find_peer(&self.peers, addr) {
            None => false,
            Some(i) => {
                let id: i32 = self.peers[i].player_id;
                proof {
                    assert(self@.peers[i as int].player_id == id);
                }
                self.game.steer(id, d);
                self.update_timeout(addr, now);
                true
            },
        }
    }

    /// Takes a message that came in from `from` at the time `now`, and
    /// returns the datagrams that answer it. `room` is where the board has
    /// room for a new snake; it is looked at only where a snake is to enter.
    pub fn receive_with(
        &mut self,
        msg: &GameMessage,
        from: &String,
        now: u64,
        room: Option<(Coord, Coord, Direction)>,
    ) -> (out: Vec<Datagram>)
        requires
            old(self).wf(),
        ensures
            final(self).wf(),
            final(self)@ == old(self)@.received(msg@, from@, now, room),
            datagram_views(out@) == old(self)@.replies(msg@, from@, room),
    {
        match &msg.payload {
            Payload::Ping => {
                let out = self.send_ack(msg.msg_seq, msg.sender_id, from);
                self.update_timeout(from, now);
                out
            },
            Payload::Ack => {
                self.ack_pending(from, msg.msg_seq, now);
                let out: Vec<Datagram> = Vec::new();
                proof {
                    assert(datagram_views(out@) =~= Seq::empty());
                }
                out
            },
            Payload::Announcement { .. } => {
                let out: Vec<Datagram> = Vec::new();
                proof {
                    assert(datagram_views(out@) =~= Seq::empty());
                }
                out
            },
            Payload::State { .. } => {
                let out: Vec<Datagram> = Vec::new();
                proof {
                    assert(datagram_views(out@) =~= Seq::empty());
                }
                out
            },
            Payload::Discover => {
                let m = self.get_announcement();
                datagram_to(from, &m)
            },
            Payload::Error { .. } => {
                let out = self.send_ack(msg.msg_seq, msg.sender_id, from);
                self.update_timeout(from, now);
                out
            },
            Payload::Join { player_type, player_name, game_name, requested_role } => {
                let mut out = self.send_ack(msg.msg_seq, Some(self.player_id), from);
                let ghost acks = datagram_views(out@);
                let (id, admitted) = self.add_player(
                    from,
                    player_name,
                    *player_type,
                    *requested_role,
                    room,
                    now,
                );
                if !admitted {
                    let error = GameMessage {
                        msg_seq: 0,
                        sender_id: None,
                        receiver_id: None,
                        payload: Payload::Error {
                            error_message: String::from_str("no available space for snake"),
                        },
                    };
                    let more = datagram_to(from, &error);
                    append_datagrams(&mut out, more);
                } else {
                    proof {
                        assert(datagram_views(out@) =~= acks + Seq::<DatagramView>::empty());
                    }
                }
                out
            },
            Payload::RoleChange { sender_role, receiver_role } => {
                let out = self.send_ack(msg.msg_seq, msg.sender_id, from);
                self.change_role(from, *sender_role, room, now);
                out
            },
            Payload::Steer { direction } => {
                let ack = self.send_ack(msg.msg_seq, msg.sender_id, from);
                let known = self.steer(from, *direction, now);
                if known {
                    ack
                } else {
                    let out: Vec<Datagram> = Vec::new();
                    proof {
                        assert(datagram_views(out@) =~= Seq::empty());
                    }
                    out
                }
            },
        }
    }

    /// Takes a message that came in from `from` at the time `now`, and
    /// returns the datagrams that answer it. Where a snake is to enter the
    /// board, its place is what the board offers: the first site, with a
    /// tail that [`Game::get_free_coord5x5`] draws at random. The rest is
    /// [`Server::receive_with`].
    pub fn receive_message(&mut self, msg: &GameMessage, from: &String, now: u64) -> (out: Vec<
        Datagram,
    >)
        requires
            old(self).wf(),
        ensures
            final(self).wf(),
            exists|room: Option<(Coord, Coord, Direction)>|
                #![trigger old(self)@.received(msg@, from@, now, room)]
                final(self)@ == old(self)@.received(msg@, from@, now, room) && datagram_views(out@)
                    == old(self)@.replies(msg@, from@, room) && (room is None
                    || old(self)@.asks_for_room(msg@)) && (old(self)@.asks_for_room(msg@)
                    ==> old(self)@.game.offers(room)),
    {
        let wanted: bool = match &msg.payload {
            Payload::Join { requested_role, .. } => *requested_role != NodeRole::VIEWER,
            Payload::RoleChange { sender_role, .. } => match sender_role {
                Some(NodeRole::NORMAL) => true,
                _ => false,
            },
            _ => false,
        };
        let room: Option<(Coord, Coord, Direction)> = if wanted {
            self.game.get_free_coord5x5()
        } else {
            None
        };
        self.receive_with(msg, from, now, room)
    }

    /// Takes a datagram that came in from `from` at the time `now`, and
    /// returns the datagrams that answer it. Bytes that are no message are
    /// passed over: nothing changes and nothing is sent, no acknowledgement
    /// either. A message is taken as [`Server::receive_message`] takes it.
    pub fn receive_datagram(&mut self, bytes: &Vec<u8>, from: &String, now: u64) -> (out: Vec<
        Datagram,
    >)
        requires
            old(self).wf(),
        ensures
            final(self).wf(),
            match crate::format::parse(bytes@) {
                None => final(self)@ == old(self)@ && out@.len() == 0,
                Some(m) => exists|room: Option<(Coord, Coord, Direction)>|
                    #![trigger old(self)@.received(m, from@, now, room)]
                    final(self)@ == old(self)@.received(m, from@, now, room) && datagram_views(out@)
                        == old(self)@.replies(m, from@, room) && (room is None
                        || old(self)@.asks_for_room(m)) && (old(self)@.asks_for_room(m)
                        ==> old(self)@.game.offers(room)),
            },
    {
        match crate::codec::decode(bytes) {
            None => Vec::new(),
            Some(msg) => self.receive_message(&msg, from, now),
        }
    }
}

} // verus!
